pub mod mem64;
pub mod tlb;

use vstd::prelude::*;
use std::collections::BTreeMap;
use ahash::AHashMap;
use slab::Slab;
use crate::maps::mem64::{Mem64, le_bytes, splice, writes_ordered, lemma_writes_apart, utf16_encode, units_le_bytes, valid_utf16, utf16_decode};
use vstd::utf8::encode_utf8;
use vstd::string::StrSliceExecFns;
use crate::fpu::f80::{pow256, le_value};
use crate::maps::tlb::{TLB, TLBEntry, LPF_OF, lpf_of, INVALID_TLB_ENTRY};

verus! {

broadcast use vstd::std_specs::btree::group_btree_axioms, vstd::laws_cmp::group_laws_cmp;

// ---------------------------------------------------------------------------
// The collections that hold the regions.
// ---------------------------------------------------------------------------

#[verifier::external_type_specification]
#[verifier::external_body]
#[verifier::reject_recursive_types(T)]
pub struct ExSlab<T>(Slab<T>);

#[verifier::external_type_specification]
#[verifier::external_body]
#[verifier::reject_recursive_types(K)]
#[verifier::reject_recursive_types(V)]
#[verifier::reject_recursive_types(S)]
pub struct ExAHashMap<K, V, S>(AHashMap<K, V, S>);

#[verifier::external_type_specification]
#[verifier::external_body]
pub struct ExRandomState(ahash::RandomState);

/// The regions that a slab holds, by key.
pub uninterp spec fn slab_items(s: Slab<Mem64>) -> Map<usize, Mem64>;

/// The keys that a name map holds, by name.
pub uninterp spec fn name_index(m: AHashMap<String, usize>) -> Map<Seq<char>, usize>;

/// No region.
pub open spec fn no_regions() -> Map<usize, Mem64> {
    Map::empty()
}

/// No name.
pub open spec fn no_names() -> Map<Seq<char>, usize> {
    Map::empty()
}

/// `Slab::with_capacity`: an empty slab.
#[verifier::external_body]
fn slab_with_capacity(capacity: usize) -> (s: Slab<Mem64>)
    ensures
        slab_items(s) == no_regions(),
{
    Slab::with_capacity(capacity)
}

/// `Slab::insert`: stores the region under a key that held nothing, and
/// returns that key.
#[verifier::external_body]
fn slab_insert(s: &mut Slab<Mem64>, m: Mem64) -> (k: usize)
    ensures
        !slab_items(*old(s)).contains_key(k),
        slab_items(*final(s)) == slab_items(*old(s)).insert(k, m),
{
    s.insert(m)
}

/// `Slab::get`: the region under the key, if any.
#[verifier::external_body]
fn slab_get(s: &Slab<Mem64>, k: usize) -> (r: Option<&Mem64>)
    ensures
        r is Some <==> slab_items(*s).contains_key(k),
        r matches Some(m) ==> *m == slab_items(*s)[k],
{
    s.get(k)
}

/// `Slab::get_mut`: the region under the key, if any, to be changed in
/// place.
#[verifier::external_body]
fn slab_get_mut(s: &mut Slab<Mem64>, k: usize) -> (r: Option<&mut Mem64>)
    ensures
        r is Some <==> slab_items(*old(s)).contains_key(k),
        r is None ==> slab_items(*final(s)) == slab_items(*old(s)),
        r is Some ==> *r->0 == slab_items(*old(s))[k] && slab_items(*final(s)) == slab_items(
            *old(s),
        ).insert(k, *final(r->0)),
{
    s.get_mut(k)
}

/// `Slab::remove`: takes the region out from under a key that holds one.
#[verifier::external_body]
fn slab_remove(s: &mut Slab<Mem64>, k: usize) -> (m: Mem64)
    requires
        slab_items(*old(s)).contains_key(k),
    ensures
        m == slab_items(*old(s))[k],
        slab_items(*final(s)) == slab_items(*old(s)).remove(k),
{
    s.remove(k)
}

/// `Slab::clear`: removes every region.
#[verifier::external_body]
fn slab_clear(s: &mut Slab<Mem64>)
    ensures
        slab_items(*final(s)) == no_regions(),
{
    s.clear()
}

/// `Slab::iter`, keys only: the occupied keys in increasing order.
#[verifier::external_body]
fn slab_keys(s: &Slab<Mem64>) -> (r: Vec<usize>)
    ensures
        forall|i: int, j: int| 0 <= i < j < r@.len() ==> r@[i] < r@[j],
        forall|k: usize| slab_items(*s).contains_key(k) <==> r@.contains(k),
{
    s.iter().map(|(k, _)| k).collect()
}

/// `AHashMap::with_capacity`: an empty map.
#[verifier::external_body]
fn names_with_capacity(capacity: usize) -> (m: AHashMap<String, usize>)
    ensures
        name_index(m) == no_names(),
{
    AHashMap::with_capacity(capacity)
}

/// `contains_key` of the map: whether a region has the name.
#[verifier::external_body]
fn names_contains(m: &AHashMap<String, usize>, name: &str) -> (r: bool)
    ensures
        r == name_index(*m).contains_key(name@),
{
    m.contains_key(name)
}

/// `AHashMap::get`: the key of the region with the name, if any.
#[verifier::external_body]
fn names_get(m: &AHashMap<String, usize>, name: &str) -> (r: Option<usize>)
    ensures
        r is Some <==> name_index(*m).contains_key(name@),
        r matches Some(k) ==> k == name_index(*m)[name@],
{
    m.get(name).copied()
}

/// `AHashMap::insert`: records the key under the name.
#[verifier::external_body]
fn names_insert(m: &mut AHashMap<String, usize>, name: String, k: usize)
    ensures
        name_index(*final(m)) == name_index(*old(m)).insert(name@, k),
{
    m.insert(name, k);
}

/// `AHashMap::remove`: forgets the name.
#[verifier::external_body]
fn names_remove(m: &mut AHashMap<String, usize>, name: &str)
    ensures
        name_index(*final(m)) == name_index(*old(m)).remove(name@),
{
    m.remove(name);
}

/// `clear` of the map: forgets every name.
#[verifier::external_body]
fn names_clear(m: &mut AHashMap<String, usize>)
    ensures
        name_index(*final(m)) == no_names(),
{
    m.clear()
}

/// Some base of `m` lies at or below `addr`.
pub open spec fn has_floor(m: Map<u64, usize>, addr: u64) -> bool {
    exists|b: u64| m.contains_key(b) && b <= addr
}

/// `b` is the highest base of `m` at or below `addr`.
pub open spec fn is_floor(m: Map<u64, usize>, addr: u64, b: u64) -> bool {
    &&& m.contains_key(b)
    &&& b <= addr
    &&& forall|c: u64| m.contains_key(c) && c <= addr ==> c <= b
}

/// `BTreeMap::range` up to `addr`, last entry: the region with the highest
/// base at or below `addr`.
#[verifier::external_body]
fn bases_floor(m: &BTreeMap<u64, usize>, addr: u64) -> (r: Option<(u64, usize)>)
    ensures
        r is None <==> !has_floor(m@, addr),
        r matches Some(p) ==> is_floor(m@, addr, p.0) && m@[p.0] == p.1,
{
    m.range(..=addr).next_back().map(|(b, k)| (*b, *k))
}


/// The lower bound is passed, if any.
pub open spec fn after_ok(after: Option<u64>, b: u64) -> bool {
    match after {
        Some(a) => b > a,
        None => true,
    }
}

/// Some base of `m` lies past `after`.
pub open spec fn has_next(m: Map<u64, usize>, after: Option<u64>) -> bool {
    exists|b: u64| m.contains_key(b) && after_ok(after, b)
}

/// `b` is the lowest base of `m` past `after`.
pub open spec fn is_next(m: Map<u64, usize>, after: Option<u64>, b: u64) -> bool {
    &&& m.contains_key(b)
    &&& after_ok(after, b)
    &&& forall|c: u64| m.contains_key(c) && after_ok(after, c) ==> b <= c
}

/// `BTreeMap::range` from past `after`, first entry: the region with the
/// lowest base past `after` (past nothing when `after` is `None`).
#[verifier::external_body]
fn bases_next(m: &BTreeMap<u64, usize>, after: Option<u64>) -> (r: Option<(u64, usize)>)
    ensures
        r is None <==> !has_next(m@, after),
        r matches Some(p) ==> is_next(m@, after, p.0) && m@[p.0] == p.1,
{
    let lo = match after {
        Some(a) => std::ops::Bound::Excluded(a),
        None => std::ops::Bound::Unbounded,
    };
    m.range((lo, std::ops::Bound::Unbounded)).next().map(|(b, k)| (*b, *k))
}

/// The complement of a page's offset bits is the page mask.
proof fn lemma_page_mask()
    ensures
        !0xfffu64 == 0xffff_ffff_ffff_f000u64,
{
    assert(!0xfffu64 == 0xffff_ffff_ffff_f000u64) by (bit_vector);
}

/// `addr` rounded up is a multiple of 0x1000, at or above `addr` and below
/// `addr + 0x1000`.
proof fn lemma_page_up_facts(addr: u64)
    requires
        addr + 0xfff <= u64::MAX,
    ensures
        page_up(addr) & 0xfff == 0,
        addr <= page_up(addr),
        page_up(addr) <= addr + 0xfff,
{
    assert(((((addr + 0xfff) as u64) & 0xffff_ffff_ffff_f000u64) & 0xfff == 0) && addr <= (((addr + 0xfff) as u64)
        & 0xffff_ffff_ffff_f000u64) && (((addr + 0xfff) as u64) & 0xffff_ffff_ffff_f000u64) <= addr + 0xfff)
        by (bit_vector)
        requires
            addr + 0xfff <= u64::MAX;
}

/// A page aligned address at or above `y` is at or above `y` rounded up.
proof fn lemma_aligned_past_page_up(x: u64, y: u64)
    requires
        x & 0xfff == 0,
        y <= x,
        y + 0xfff <= u64::MAX,
    ensures
        page_up(y) <= x,
{
    assert(((y + 0xfff) as u64) & 0xffff_ffff_ffff_f000u64 <= x) by (bit_vector)
        requires
            x & 0xfff == 0,
            y <= x,
            y + 0xfff <= u64::MAX;
}

/// `addr` rounded up to a multiple of 0x1000.
pub open spec fn page_up(addr: u64) -> u64 {
    ((addr + 0xfff) as u64) & 0xffff_ffff_ffff_f000
}

/// What a search for free space ends with once the regions are passed:
/// the last candidate, pulled down to the top when past it, if the room up
/// to the top exceeds the size; `None` (the outer one) when the candidate
/// would lie past the top.
pub open spec fn alloc_finish(prev: u64, sz: u64, top: u64) -> Option<Option<u64>> {
    let p = if top < prev {
        page_up(top)
    } else {
        prev
    };
    if p > top {
        None
    } else if top - p > sz {
        Some(Some(p))
    } else {
        Some(None)
    }
}

// ---------------------------------------------------------------------------
// Text.
// ---------------------------------------------------------------------------

/// `String::push`: appends the character.
#[verifier::external_body]
pub(crate) fn push_char(s: &mut String, c: char)
    ensures
        final(s)@ == old(s)@.push(c),
{
    s.push(c)
}

/// The lower case hexadecimal digit of `d`.
pub open spec fn hex_digit(d: nat) -> char {
    if d < 10 {
        (48 + d) as char
    } else {
        (87 + d) as char
    }
}

/// `v` in lower case hexadecimal, without leading zeros.
pub open spec fn hex_text(v: nat) -> Seq<char>
    decreases v,
{
    if v < 16 {
        seq![hex_digit(v)]
    } else {
        hex_text(v / 16).push(hex_digit(v % 16))
    }
}

fn hex_digit_char(d: u64) -> (c: char)
    requires
        d < 16,
    ensures
        c == hex_digit(d as nat),
{
    if d < 10 {
        ((48 + d) as u8) as char
    } else {
        ((87 + d) as u8) as char
    }
}

/// Appends `v` in lower case hexadecimal.
fn push_hex(s: &mut String, v: u64)
    ensures
        final(s)@ == old(s)@ + hex_text(v as nat),
    decreases v,
{
    if v < 16 {
        push_char(s, hex_digit_char(v));
    } else {
        push_hex(s, v / 16);
        push_char(s, hex_digit_char(v % 16));
        assert(old(s)@ + hex_text(v as nat) =~= old(s)@ + hex_text((v / 16) as nat) + seq![hex_digit((v % 16) as nat)]);
    }
}


/// Whether two strings are equal, compared byte by byte.
pub(crate) fn same_text(a: &str, b: &str) -> (r: bool)
    ensures
        r == (a@ == b@),
{
    let x = a.as_bytes();
    let y = b.as_bytes();
    assert(x@ == encode_utf8(a@));
    assert(y@ == encode_utf8(b@));
    proof {
        vstd::utf8::encode_utf8_decode_utf8(a@);
        vstd::utf8::encode_utf8_decode_utf8(b@);
    }
    if x.len() != y.len() {
        assert(x@ != y@);
        return false;
    }
    let mut i: usize = 0;
    while i < x.len()
        invariant
            i <= x@.len() == y@.len(),
            x@ == encode_utf8(a@),
            y@ == encode_utf8(b@),
            forall|j: int| 0 <= j < i ==> x@[j] == y@[j],
        decreases x@.len() - i,
    {
        if x[i] != y[i] {
            assert(x@[i as int] != y@[i as int]);
            assert(x@ != y@);
            return false;
        }
        i = i + 1;
    }
    assert(x@ =~= y@);
    true
}

/// The UTF-8 bytes of the name end with `.pe`.
pub open spec fn ends_with_pe(name: Seq<char>) -> bool {
    let b = encode_utf8(name);
    b.len() >= 3 && b.subrange(b.len() - 3, b.len() as int) == seq![0x2eu8, 0x70u8, 0x65u8]
}

fn name_ends_with_pe(name: &str) -> (r: bool)
    ensures
        r == ends_with_pe(name@),
{
    let b = name.as_bytes();
    let n = b.len();
    if n < 3 {
        return false;
    }
    let r = b[n - 3] == 0x2e && b[n - 2] == 0x70 && b[n - 1] == 0x65;
    assert(r == (b@.subrange(n - 3, n as int) =~= seq![0x2eu8, 0x70u8, 0x65u8]));
    r
}

/// The keys between two neighbours of an increasing key list, and those
/// before the first or after the last, hold no region.
proof fn lemma_no_key_between(keys: Seq<usize>, m: Map<usize, Mem64>, i: int)
    requires
        forall|a: int, b: int| 0 <= a < b < keys.len() ==> keys[a] < keys[b],
        forall|k: usize| m.contains_key(k) <==> keys.contains(k),
        0 <= i <= keys.len(),
    ensures
        forall|j: usize|
            (if i == 0 { 0 } else { keys[i - 1] as nat + 1 }) <= j < (if i == keys.len() {
                usize::MAX as nat + 1
            } else {
                keys[i] as nat
            }) ==> !#[trigger] m.contains_key(j),
{
    assert forall|j: usize|
        (if i == 0 { 0 } else { keys[i - 1] as nat + 1 }) <= j < (if i == keys.len() {
            usize::MAX as nat + 1
        } else {
            keys[i] as nat
        }) implies !#[trigger] m.contains_key(j) by {
        if m.contains_key(j) {
            assert(keys.contains(j));
            let t = choose|t: int| 0 <= t < keys.len() && keys[t] == j;
            assert(0 <= t < keys.len() && keys[t] == j);
            if t < i {
                if t < i - 1 {
                    assert(keys[t] < keys[i - 1]);
                }
            } else if t > i {
                assert(keys[i] < keys[t]);
            }
        }
    }
}

/// Whether two regions span a common address.
pub open spec fn regions_overlap(a: Mem64, b: Mem64) -> bool {
    exists|x: u64| spans(a, x) && spans(b, x)
}

/// The pattern lies in the region from `a` on, byte for byte.
pub open spec fn matches_at(m: Mem64, a: u64, pat: Seq<u8>) -> bool {
    &&& a + pat.len() <= m.bottom_view()
    &&& forall|i: int| 0 <= i < pat.len() ==> #[trigger] m.bytes()[m.offset(a) + i] == pat[i]
}

/// The addresses from `lo` to `hi` (excluded), in increasing order, at
/// which the pattern lies in the region.
pub open spec fn match_addrs(m: Mem64, lo: u64, hi: u64, pat: Seq<u8>) -> Seq<u64>
    decreases hi - lo,
{
    if hi <= lo {
        Seq::empty()
    } else {
        match_addrs(m, lo, (hi - 1) as u64, pat) + if matches_at(m, (hi - 1) as u64, pat) {
            seq![(hi - 1) as u64]
        } else {
            Seq::empty()
        }
    }
}


/// Reading the pattern at `a` never steps past the region's bottom while
/// the bytes so far match.
pub open spec fn scan_stays(m: Mem64, a: u64, pat: Seq<u8>) -> bool {
    forall|j: int| 0 <= j < pat.len() && #[trigger] prefix_matches(m, a, pat, j) ==> a + j < m.bottom_view()
}

/// The first `j` bytes of the pattern lie in the region from `a` on.
pub open spec fn prefix_matches(m: Mem64, a: u64, pat: Seq<u8>, j: int) -> bool {
    forall|t: int| 0 <= t < j ==> #[trigger] m.bytes()[m.offset(a) + t] == pat[t]
}

/// A byte as two lower case hexadecimal digits and a space.
pub open spec fn byte_hex_text(b: u8) -> Seq<char> {
    seq![hex_digit((b / 16) as nat), hex_digit((b % 16) as nat), ' ']
}

/// The bytes as two hexadecimal digits and a space each.
pub open spec fn bytes_hex_text(bs: Seq<u8>) -> Seq<char>
    decreases bs.len(),
{
    if bs.len() == 0 {
        Seq::empty()
    } else {
        bytes_hex_text(bs.drop_last()) + byte_hex_text(bs.last())
    }
}


/// The value of a hexadecimal digit byte.
pub open spec fn hex_val(c: u8) -> Option<nat> {
    if 0x30 <= c <= 0x39 {
        Some((c - 0x30) as nat)
    } else if 0x61 <= c <= 0x66 {
        Some((c - 0x57) as nat)
    } else if 0x41 <= c <= 0x46 {
        Some((c - 0x37) as nat)
    } else {
        None
    }
}

/// Every byte is a hexadecimal digit.
pub open spec fn all_hex(d: Seq<u8>) -> bool {
    forall|i: int| 0 <= i < d.len() ==> #[trigger] hex_val(d[i]) is Some
}

/// The number that hexadecimal digits write.
pub open spec fn hex_number(d: Seq<u8>) -> nat
    decreases d.len(),
{
    if d.len() == 0 {
        0
    } else {
        hex_number(d.drop_last()) * 16 + hex_val(d.last())->0
    }
}

/// A byte written in hexadecimal, with an optional leading `+`, as
/// `u8::from_str_radix` with radix 16 reads it: `None` for an empty piece,
/// a lone sign, a byte that is no digit, or a value above 255.
pub open spec fn parse_hex_byte(p: Seq<u8>) -> Option<u8> {
    let d = if p.len() > 1 && p[0] == 0x2b {
        p.drop_first()
    } else {
        p
    };
    if d.len() == 0 || !all_hex(d) || hex_number(d) > 255 {
        None
    } else {
        Some(hex_number(d) as u8)
    }
}

/// The pieces of `b` between spaces, as `str::split(' ')` gives them.
pub open spec fn pieces(b: Seq<u8>) -> Seq<Seq<u8>>
    decreases b.len(),
{
    if b.len() == 0 {
        seq![Seq::empty()]
    } else {
        let rest = pieces(b.drop_first());
        if b[0] == 0x20 {
            seq![Seq::<u8>::empty()] + rest
        } else {
            rest.update(0, seq![b[0]] + rest[0])
        }
    }
}

/// The bytes that the pieces write, up to the first piece that writes
/// none.
pub open spec fn parse_pieces(ps: Seq<Seq<u8>>) -> Seq<u8>
    decreases ps.len(),
{
    if ps.len() == 0 {
        Seq::empty()
    } else {
        match parse_hex_byte(ps[0]) {
            Some(v) => seq![v] + parse_pieces(ps.drop_first()),
            None => Seq::empty(),
        }
    }
}

/// The bytes that a text of space separated hexadecimal bytes writes.
pub open spec fn spaced_bytes(b: Seq<u8>) -> Seq<u8> {
    parse_pieces(pieces(b))
}

proof fn lemma_pieces_nonempty(b: Seq<u8>)
    ensures
        pieces(b).len() >= 1,
    decreases b.len(),
{
    if b.len() > 0 {
        lemma_pieces_nonempty(b.drop_first());
    }
}

/// A text with no space up to `j` is one piece up to there: the first
/// piece is that text followed by the first piece from `j` on.
proof fn lemma_pieces_prefix(b: Seq<u8>, j: int)
    requires
        0 <= j <= b.len(),
        forall|t: int| 0 <= t < j ==> b[t] != 0x20,
    ensures
        pieces(b) == pieces(b.skip(j)).update(0, b.take(j) + pieces(b.skip(j))[0]),
    decreases j,
{
    lemma_pieces_nonempty(b.skip(j));
    if j == 0 {
        assert(b.skip(0) =~= b);
        assert(b.take(0) + pieces(b)[0] =~= pieces(b)[0]);
        assert(pieces(b).update(0, pieces(b)[0]) =~= pieces(b));
    } else {
        let c = b.drop_first();
        assert forall|t: int| 0 <= t < j - 1 implies c[t] != 0x20 by {
            assert(c[t] == b[t + 1]);
        }
        lemma_pieces_prefix(c, j - 1);
        assert(c.skip(j - 1) =~= b.skip(j));
        assert(b.take(j) =~= seq![b[0]] + c.take(j - 1));
        lemma_pieces_nonempty(c);
        let rest = pieces(c);
        let q = pieces(b.skip(j));
        assert(b[0] != 0x20);
        assert(pieces(b) == rest.update(0, seq![b[0]] + rest[0]));
        assert(rest[0] == c.take(j - 1) + q[0]);
        assert(seq![b[0]] + rest[0] =~= b.take(j) + q[0]);
        assert(pieces(b) =~= q.update(0, b.take(j) + q[0]));
    }
}

/// The value of a digit string grows with each digit appended.
proof fn lemma_hex_number_grows(d: Seq<u8>, k: int)
    requires
        0 <= k <= d.len(),
        all_hex(d),
    ensures
        hex_number(d.take(k)) <= hex_number(d),
    decreases d.len() - k,
{
    if k < d.len() {
        assert(all_hex(d.drop_last()));
        assert(d.drop_last().take(k) =~= d.take(k));
        lemma_hex_number_grows(d.drop_last(), k);
        assert(hex_number(d) == hex_number(d.drop_last()) * 16 + hex_val(d.last())->0);
    } else {
        assert(d.take(k) =~= d);
    }
}

/// `u8::from_str_radix(piece, 16)` on the bytes from `start` to `end`.
fn parse_hex_piece(b: &[u8], start: usize, end: usize) -> (r: Option<u8>)
    requires
        start <= end <= b@.len(),
    ensures
        r == parse_hex_byte(b@.subrange(start as int, end as int)),
{
    let ghost p = b@.subrange(start as int, end as int);
    let mut i = start;
    if end - start > 1 && b[start] == 0x2b {
        i = start + 1;
    }
    let ghost d = b@.subrange(i as int, end as int);
    proof {
        if p.len() > 1 && p[0] == 0x2b {
            assert(p.drop_first() =~= d);
        } else {
            assert(p =~= d);
        }
    }
    if i == end {
        return None;
    }
    let mut value: u32 = 0;
    let mut k = i;
    assert(parse_hex_byte(p) == if d.len() == 0 || !all_hex(d) || hex_number(d) > 255 {
        None
    } else {
        Some(hex_number(d) as u8)
    });
    while k < end
        invariant
            i <= k <= end <= b@.len(),
            d == b@.subrange(i as int, end as int),
            p == b@.subrange(start as int, end as int),
            parse_hex_byte(p) == if d.len() == 0 || !all_hex(d) || hex_number(d) > 255 {
                None
            } else {
                Some(hex_number(d) as u8)
            },
            all_hex(d.take(k - i)),
            value == hex_number(d.take(k - i)),
            value <= 255,
        decreases end - k,
    {
        let c = b[k];
        let v: u32 = if 0x30 <= c && c <= 0x39 {
            (c - 0x30) as u32
        } else if 0x61 <= c && c <= 0x66 {
            (c - 0x57) as u32
        } else if 0x41 <= c && c <= 0x46 {
            (c - 0x37) as u32
        } else {
            assert(d[k - i] == c);
            assert(hex_val(d[k - i]) is None);
            assert(!all_hex(d));
            return None;
        };
        proof {
            assert(d.take(k - i + 1).drop_last() =~= d.take(k - i));
            assert(d.take(k - i + 1).last() == c);
            assert(all_hex(d.take(k - i + 1))) by {
                assert forall|t: int| 0 <= t < k - i + 1 implies #[trigger] hex_val(d.take(k - i + 1)[t]) is Some by {
                    if t < k - i {
                        assert(d.take(k - i + 1)[t] == d.take(k - i)[t]);
                    }
                }
            }
        }
        value = value * 16 + v;
        k = k + 1;
        if value > 255 {
            proof {
                if all_hex(d) {
                    lemma_hex_number_grows(d, k - i);
                }
            }
            return None;
        }
    }
    assert(d.take(end - i) =~= d);
    Some(value as u8)
}


/// The lowest address from `lo` to `hi` (included) at which the pattern
/// lies in the region.
pub open spec fn first_match(m: Mem64, lo: int, hi: int, pat: Seq<u8>) -> Option<u64>
    decreases hi - lo + 1,
{
    if hi < lo {
        None
    } else {
        match first_match(m, lo, hi - 1, pat) {
            Some(a) => Some(a),
            None => if matches_at(m, hi as u64, pat) {
                Some(hi as u64)
            } else {
                None
            },
        }
    }
}

/// The highest address from `lo` to `hi` (included) at which the pattern
/// lies in the region.
pub open spec fn last_match(m: Mem64, lo: int, hi: int, pat: Seq<u8>) -> Option<u64>
    decreases hi - lo + 1,
{
    if hi < lo {
        None
    } else if matches_at(m, hi as u64, pat) {
        Some(hi as u64)
    } else {
        last_match(m, lo, hi - 1, pat)
    }
}

/// The region spans `addr`.
pub open spec fn spans_addr(addr: u64) -> spec_fn(Mem64) -> bool {
    |m: Mem64| spans(m, addr)
}


/// A character that `filter_string` keeps: one whose low byte is a
/// printable ASCII byte, the space, the tab or zero.
pub open spec fn kept_by_filter(c: char) -> bool {
    let b = (c as u32 % 256) as u8;
    b == 0 || b == 9 || 0x20 <= b <= 0x7e
}

/// The characters that `filter_string` keeps, in order.
pub open spec fn filtered_chars(s: Seq<char>) -> Seq<char>
    decreases s.len(),
{
    if s.len() == 0 {
        Seq::empty()
    } else if kept_by_filter(s.last()) {
        filtered_chars(s.drop_last()).push(s.last())
    } else {
        filtered_chars(s.drop_last())
    }
}

// ---------------------------------------------------------------------------
// The memory maps.
// ---------------------------------------------------------------------------

/// The emulated address space: named regions, found by base address and by
/// name, with a lookup cache that remembers which region a page was
/// last found in.
pub struct Maps {
    pub banzai: bool,
    mem_slab: Slab<Mem64>,
    maps: BTreeMap<u64, usize>,
    name_map: AHashMap<String, usize>,
    pub is_64bits: bool,
    tlb: TLB,
}

/// A printable ASCII byte other than the space.
pub open spec fn is_printable(b: u8) -> bool {
    0x21 <= b <= 0x7e
}

/// Whether `m` spans `addr`.
/// The writes of the bytes `bs`, one by one from `addr`.
pub open spec fn byte_writes(addr: u64, bs: Seq<u8>) -> Seq<(u64, Seq<u8>)> {
    Seq::new(bs.len(), |i: int| ((addr + i) as u64, seq![bs[i]]))
}

pub open spec fn spans(m: Mem64, addr: u64) -> bool {
    m.base_view() <= addr < m.bottom_view()
}

impl Maps {
    /// The regions by slab key.
    pub closed spec fn regions(&self) -> Map<usize, Mem64> {
        slab_items(self.mem_slab)
    }

    /// The slab keys by base address.
    pub closed spec fn bases(&self) -> Map<u64, usize> {
        self.maps@
    }

    /// The slab keys by name.
    pub closed spec fn names(&self) -> Map<Seq<char>, usize> {
        name_index(self.name_map)
    }

    /// Whether accesses to unmapped memory are tolerated.
    pub closed spec fn banzai_view(&self) -> bool {
        self.banzai
    }

    /// Whether the address space is that of a 64 bit process.
    pub closed spec fn bits64_view(&self) -> bool {
        self.is_64bits
    }

    /// The lookup cache.
    pub closed spec fn cache(&self) -> TLB {
        self.tlb
    }

    /// The three indexes agree, every region's bytes fill it, and the cache
    /// has its entries.
    pub open spec fn wf(&self) -> bool {
        &&& self.cache().wf()
        &&& forall|b: u64|
            #[trigger] self.bases().contains_key(b) ==> self.regions().contains_key(self.bases()[b])
                && self.regions()[self.bases()[b]].base_view() == b
        &&& forall|n: Seq<char>|
            #[trigger] self.names().contains_key(n) ==> self.regions().contains_key(self.names()[n])
                && self.regions()[self.names()[n]].name_view() == n
        &&& forall|k: usize| #[trigger]
            self.regions().contains_key(k) ==> {
                let m = self.regions()[k];
                &&& self.bases().contains_key(m.base_view())
                &&& self.bases()[m.base_view()] == k
                &&& self.names().contains_key(m.name_view())
                &&& self.names()[m.name_view()] == k
                &&& m.base_view() + m.bytes().len() == m.bottom_view()
            }
    }

    /// Region `k` exists and spans `addr`.
    pub open spec fn key_spans(&self, k: usize, addr: u64) -> bool {
        self.regions().contains_key(k) && spans(self.regions()[k], addr)
    }

    /// The highest base at or below `addr`.
    pub open spec fn floor_base(&self, addr: u64) -> Option<u64> {
        if has_floor(self.bases(), addr) {
            Some(choose|b: u64| is_floor(self.bases(), addr, b))
        } else {
            None
        }
    }

    /// The cache entry for the page of `addr`.
    pub open spec fn cached(&self, addr: u64) -> TLBEntry {
        self.cache().entry_for(addr, 0)
    }

    /// The region found by the highest base at or below `addr`, when it
    /// spans `addr`.
    pub open spec fn floor_region(&self, addr: u64) -> Option<usize> {
        match self.floor_base(addr) {
            Some(b) => if self.key_spans(self.bases()[b], addr) {
                Some(self.bases()[b])
            } else {
                None
            },
            None => None,
        }
    }

    /// The region that a lookup of `addr` finds with the cache entries
    /// `entries`: the one the entry of its page names if that spans it,
    /// else the one with the highest base at or below it if that spans it.
    pub open spec fn lookup_in(&self, entries: Seq<TLBEntry>, addr: u64) -> Option<usize> {
        let e = entries[crate::maps::tlb::tlb_index(lpf_of(addr), 0) as int];
        if self.key_spans(e.mem64, addr) {
            Some(e.mem64)
        } else {
            self.floor_region(addr)
        }
    }

    /// The region that a lookup of `addr` finds (see `lookup_in`).
    pub open spec fn region_for(&self, addr: u64) -> Option<usize> {
        self.lookup_in(self.cache().entries(), addr)
    }

    /// Two states whose regions have the same keys, bases and bottoms, and
    /// the same base index, find the same regions.
    pub proof fn lemma_same_spans_same_lookup(&self, other: Maps, entries: Seq<TLBEntry>, addr: u64)
        requires
            other.bases() == self.bases(),
            other.regions().dom() == self.regions().dom(),
            forall|k: usize|
                #[trigger] self.regions().contains_key(k) ==> other.regions()[k].base_view()
                    == self.regions()[k].base_view() && other.regions()[k].bottom_view()
                    == self.regions()[k].bottom_view(),
        ensures
            other.lookup_in(entries, addr) == self.lookup_in(entries, addr),
            other.floor_region(addr) == self.floor_region(addr),
    {
        let e = entries[crate::maps::tlb::tlb_index(lpf_of(addr), 0) as int];
        assert(other.key_spans(e.mem64, addr) == self.key_spans(e.mem64, addr));
        if let Some(b) = self.floor_base(addr) {
            assert(other.floor_base(addr) == Some(b));
            assert(other.key_spans(self.bases()[b], addr) == self.key_spans(self.bases()[b], addr));
        }
    }

    /// The highest base at or below `addr` is the one that has the floor
    /// property.
    pub proof fn lemma_floor_base(&self, addr: u64, b: u64)
        requires
            is_floor(self.bases(), addr, b),
        ensures
            self.floor_base(addr) == Some(b),
    {
        let c = choose|c: u64| is_floor(self.bases(), addr, c);
        assert(is_floor(self.bases(), addr, c));
    }

    /// The cache entries after a lookup of `addr` that may change it: an
    /// entry naming no region is emptied, and a region found by base is
    /// recorded for the page.
    pub open spec fn cache_after_lookup(&self, addr: u64) -> Seq<TLBEntry> {
        let i = crate::maps::tlb::tlb_index(lpf_of(addr), 0) as int;
        let e = self.cached(addr);
        if self.key_spans(e.mem64, addr) {
            self.cache().entries()
        } else {
            let e1 = if self.regions().contains_key(e.mem64) {
                e
            } else {
                TLBEntry { lpf: INVALID_TLB_ENTRY, mem64: e.mem64 }
            };
            match self.floor_region(addr) {
                Some(k) => self.cache().entries().update(i, TLBEntry { lpf: lpf_of(addr), mem64: k }),
                None => self.cache().entries().update(i, e1),
            }
        }
    }

    /// The region found for `addr` spans the `n` bytes from `addr`.
    pub open spec fn fits(&self, addr: u64, n: nat) -> bool {
        &&& self.region_for(addr) is Some
        &&& addr + n <= self.regions()[self.region_for(addr)->0].bottom_view()
    }

    /// The little endian value of the `n` bytes at `addr` in the region
    /// found for `addr`.
    pub open spec fn value_at(&self, addr: u64, n: nat) -> nat {
        self.regions()[self.region_for(addr)->0].value_at(addr, n)
    }

    /// `new` is `self` after the bytes `b` were written at `addr` in the
    /// region found for `addr`.
    pub open spec fn stored(&self, new: Maps, addr: u64, b: Seq<u8>) -> bool {
        let k = self.region_for(addr)->0;
        &&& new.regions() == self.regions().insert(k, new.regions()[k])
        &&& self.regions()[k].wrote(new.regions()[k], addr, b)
    }

    /// `new` has the indexes, the mode and the cache that a lookup of
    /// `addr` in `self` leaves.
    pub open spec fn looked_up(&self, new: Maps, addr: u64) -> bool {
        &&& new.cache().wf()
        &&& new.cache().entries() == self.cache_after_lookup(addr)
        &&& new.bases() == self.bases()
        &&& new.names() == self.names()
        &&& new.banzai_view() == self.banzai_view()
        &&& new.bits64_view() == self.bits64_view()
    }

    /// Under the invariant, a region that spans `addr` to `addr + n` holds
    /// those bytes.
    pub proof fn lemma_fits_holds(&self, addr: u64, n: nat)
        requires
            self.wf(),
            self.fits(addr, n),
        ensures
            self.regions()[self.region_for(addr)->0].holds(addr, n),
            self.regions()[self.region_for(addr)->0].base_view() <= addr,
    {
        let k = self.region_for(addr)->0;
        assert(self.regions().contains_key(k));
    }

    /// A write of bytes in a region that the lookup found keeps the
    /// invariant, and a lookup of `addr` then finds the same region.
    pub proof fn lemma_store_keeps_wf(&self, new: Maps, addr: u64, b: Seq<u8>)
        requires
            self.wf(),
            self.region_for(addr) is Some,
            self.regions()[self.region_for(addr)->0].holds(addr, b.len()),
            self.stored(new, addr, b),
            self.looked_up(new, addr),
        ensures
            new.wf(),
            new.region_for(addr) == self.region_for(addr),
    {
        let k = self.region_for(addr)->0;
        let m = self.regions()[k];
        let m2 = new.regions()[k];
        assert(m2.bytes().len() == m.bytes().len());
        assert forall|j: usize| #[trigger] new.regions().contains_key(j) implies {
            let r = new.regions()[j];
            &&& new.bases().contains_key(r.base_view())
            &&& new.bases()[r.base_view()] == j
            &&& new.names().contains_key(r.name_view())
            &&& new.names()[r.name_view()] == j
            &&& r.base_view() + r.bytes().len() == r.bottom_view()
        } by {
            assert(self.regions().contains_key(j));
        }
        assert forall|c: u64| #[trigger] new.bases().contains_key(c) implies new.regions().contains_key(
            new.bases()[c],
        ) && new.regions()[new.bases()[c]].base_view() == c by {
            assert(self.bases().contains_key(c));
        }
        assert forall|n: Seq<char>| #[trigger] new.names().contains_key(n) implies new.regions().contains_key(
            new.names()[n],
        ) && new.regions()[new.names()[n]].name_view() == n by {
            assert(self.names().contains_key(n));
        }
        crate::maps::tlb::lemma_tlb_index_bound(lpf_of(addr), 0);
        if self.key_spans(self.cached(addr).mem64, addr) {
            assert(new.cached(addr) == self.cached(addr));
        } else {
            assert(new.cached(addr) == TLBEntry { lpf: lpf_of(addr), mem64: k });
        }
    }

    /// The bytes that a read of up to `sz` bytes at `addr` gives: those of
    /// the region found for `addr`, cut at its end.
    pub open spec fn bytes_from(&self, addr: u64, sz: nat) -> Seq<u8> {
        let m = self.regions()[self.region_for(addr)->0];
        m.bytes().subrange(
            m.offset(addr),
            if m.offset(addr) + sz > m.bytes().len() {
                m.bytes().len() as int
            } else {
                m.offset(addr) + sz
            },
        )
    }

    /// The region found for `addr` spans `end`.
    pub open spec fn spans_to(&self, addr: u64, end: u64) -> bool {
        self.region_for(addr) is Some && spans(self.regions()[self.region_for(addr)->0], end)
    }

    /// `new` is `self` after `write_bytes(addr, b)`: the bytes are written
    /// when the region found for `addr` spans their last one.
    pub open spec fn bytes_written(&self, new: Maps, addr: u64, b: Seq<u8>) -> bool {
        &&& self.looked_up(new, addr)
        &&& new.wf()
        &&& self.spans_to(addr, (addr + b.len() - 1) as u64) ==> self.stored(new, addr, b)
        &&& !self.spans_to(addr, (addr + b.len() - 1) as u64) ==> new.regions() == self.regions()
    }

    /// A lookup of `a` finds a region holding the `n` bytes from `a`
    /// whatever the lookup cache holds: the region with the highest
    /// base at or below `a` spans `a`, and every region spanning `a` spans
    /// the `n` bytes.
    #[verifier::opaque]
    pub open spec fn fits_anyhow(&self, a: u64, n: nat) -> bool {
        &&& self.floor_region(a) is Some
        &&& forall|k: usize| #[trigger] self.key_spans(k, a) ==> a + n <= self.regions()[k].bottom_view()
    }

    /// `new` has the indexes, the mode and every region's bounds of `self`.
    #[verifier::opaque]
    pub open spec fn same_layout(&self, new: Maps) -> bool {
        &&& self.wf()
        &&& new.wf()
        &&& new.bases() == self.bases()
        &&& new.banzai_view() == self.banzai_view()
        &&& new.regions().dom() == self.regions().dom()
        &&& forall|k: usize| #[trigger]
            self.regions().contains_key(k) ==> new.regions()[k].base_view() == self.regions()[k].base_view()
                && new.regions()[k].bottom_view() == self.regions()[k].bottom_view()
    }

    /// `new` is `self` after one write of the bytes `b` at `a` by
    /// `write_byte`, `write_word`, `write_dword` or `write_qword`: stored
    /// when the region found for `a` holds them, else no region changes.
    pub open spec fn wrote_value(&self, new: Maps, a: u64, b: Seq<u8>) -> bool {
        &&& self.looked_up(new, a)
        &&& new.wf()
        &&& self.fits(a, b.len()) ==> self.stored(new, a, b)
        &&& !self.fits(a, b.len()) ==> new.regions() == self.regions()
    }

    /// `new` is `self` after the writes `ws` (address and bytes), one
    /// after the other.
    #[verifier::opaque]
    pub open spec fn wrote_values(&self, new: Maps, ws: Seq<(u64, Seq<u8>)>) -> bool
        decreases ws.len(),
    {
        if ws.len() == 0 {
            new == *self
        } else {
            exists|mid: Maps|
                self.wrote_values(mid, ws.drop_last()) && #[trigger] mid.wrote_value(
                    new,
                    ws.last().0,
                    ws.last().1,
                )
        }
    }

    /// Under the invariant, a write that fits whatever the cache holds
    /// fits now.
    pub proof fn lemma_fits_anyhow(&self, a: u64, n: nat)
        requires
            self.wf(),
            self.fits_anyhow(a, n),
        ensures
            self.fits(a, n),
    {
        reveal(Maps::fits_anyhow);
        let e = self.cache().entries()[crate::maps::tlb::tlb_index(lpf_of(a), 0) as int];
        if !self.key_spans(e.mem64, a) {
            let k = self.floor_region(a)->0;
            assert(self.key_spans(k, a));
        }
    }

    /// Two states of the same layout agree on which writes fit whatever
    /// the cache holds.
    pub proof fn lemma_same_layout_fits(&self, new: Maps, a: u64, n: nat)
        requires
            self.same_layout(new),
        ensures
            new.fits_anyhow(a, n) == self.fits_anyhow(a, n),
            new.floor_region(a) == self.floor_region(a),
    {
        reveal(Maps::fits_anyhow);
        reveal(Maps::same_layout);
        self.lemma_same_spans_same_lookup(new, self.cache().entries(), a);
        assert forall|k: usize| new.key_spans(k, a) == self.key_spans(k, a) by {
            if self.regions().contains_key(k) {
            }
        }
        if new.fits_anyhow(a, n) {
            assert forall|k: usize| #[trigger] self.key_spans(k, a) implies a + n
                <= self.regions()[k].bottom_view() by {
                assert(new.key_spans(k, a));
            }
        }
        if self.fits_anyhow(a, n) {
            assert forall|k: usize| #[trigger] new.key_spans(k, a) implies a + n
                <= new.regions()[k].bottom_view() by {
                assert(self.key_spans(k, a));
            }
        }
    }

    /// A single value write keeps the layout.
    pub proof fn lemma_wrote_value_layout(&self, new: Maps, a: u64, b: Seq<u8>)
        requires
            self.wf(),
            self.wrote_value(new, a, b),
        ensures
            self.same_layout(new),
    {
        reveal(Maps::same_layout);
        if self.fits(a, b.len()) {
            let k = self.region_for(a)->0;
            assert(self.regions().contains_key(k));
            assert(new.regions().dom() =~= self.regions().dom());
        }
    }

    /// Under the invariant a state has its own layout.
    pub proof fn lemma_same_layout_refl(&self)
        requires
            self.wf(),
        ensures
            self.same_layout(*self),
    {
        reveal(Maps::same_layout);
    }

    /// A save run starts with no write done, in the layout of its start.
    pub proof fn lemma_run_start(&self)
        requires
            self.wf(),
        ensures
            self.same_layout(*self),
            self.wrote_values(*self, Seq::empty()),
    {
        reveal(Maps::wrote_values);
        self.lemma_same_layout_refl();
    }

    /// Two states of the same layout keep the invariant and the mode.
    pub proof fn lemma_same_layout_wf(&self, new: Maps)
        requires
            self.same_layout(new),
        ensures
            self.wf(),
            new.wf(),
            new.banzai_view() == self.banzai_view(),
    {
        reveal(Maps::same_layout);
    }

    /// Replacing region `k` by one with the same name, base, end and number
    /// of bytes, the indexes and the cache kept (as through `get_mem`),
    /// keeps the state consistent and of the same layout.
    pub proof fn lemma_region_replaced(&self, new: Maps, k: usize)
        requires
            self.wf(),
            self.regions().contains_key(k),
            new.regions() == self.regions().insert(k, new.regions()[k]),
            new.regions()[k].name_view() == self.regions()[k].name_view(),
            new.regions()[k].base_view() == self.regions()[k].base_view(),
            new.regions()[k].bottom_view() == self.regions()[k].bottom_view(),
            new.regions()[k].bytes().len() == self.regions()[k].bytes().len(),
            new.bases() == self.bases(),
            new.names() == self.names(),
            new.cache() == self.cache(),
            new.banzai_view() == self.banzai_view(),
        ensures
            new.wf(),
            self.same_layout(new),
    {
        reveal(Maps::same_layout);
        assert(new.regions().dom() =~= self.regions().dom());
    }

    /// `new` is `self` after the writes `ws`, each of which found a region
    /// holding its bytes.
    pub open spec fn wrote_fitting(&self, new: Maps, ws: Seq<(u64, Seq<u8>)>) -> bool
        decreases ws.len(),
    {
        if ws.len() == 0 {
            new == *self
        } else {
            exists|mid: Maps|
                self.wrote_fitting(mid, ws.drop_last()) && mid.fits(ws.last().0, ws.last().1.len())
                    && #[trigger] mid.wrote_value(new, ws.last().0, ws.last().1)
        }
    }

    /// The writes `ws` from `self` stopped at write `k`: those before it
    /// found their region, and write `k` found none holding its bytes and
    /// left `new`.
    pub open spec fn stopped_at(&self, new: Maps, ws: Seq<(u64, Seq<u8>)>, k: int) -> bool {
        exists|mid: Maps|
            self.wrote_fitting(mid, ws.take(k)) && !mid.fits(ws[k].0, ws[k].1.len())
                && #[trigger] mid.wrote_value(new, ws[k].0, ws[k].1)
    }

    /// One more fitting write extends a run of fitting writes.
    pub proof fn lemma_wrote_fitting_push(&self, mid: Maps, new: Maps, ws: Seq<(u64, Seq<u8>)>, a: u64, b: Seq<u8>)
        requires
            self.wrote_fitting(mid, ws),
            mid.fits(a, b.len()),
            mid.wrote_value(new, a, b),
        ensures
            self.wrote_fitting(new, ws.push((a, b))),
    {
        let vs = ws.push((a, b));
        assert(vs.drop_last() =~= ws);
        assert(vs.last() == (a, b));
        assert(self.wrote_fitting(mid, vs.drop_last()) && mid.fits(vs.last().0, vs.last().1.len())
            && mid.wrote_value(new, vs.last().0, vs.last().1));
    }

    /// Region `k` alone holds the `n` bytes from `a`: it spans them, no
    /// other region spans any of them, and for each of them the region with
    /// the highest base at or below it is `k`.
    pub open spec fn sole_region(&self, k: usize, a: u64, n: nat) -> bool {
        &&& self.regions().contains_key(k)
        &&& self.regions()[k].base_view() <= a
        &&& a + n <= self.regions()[k].bottom_view()
        &&& forall|x: u64| a <= x < a + n ==> #[trigger] self.floor_region(x) == Some(k)
        &&& forall|j: usize, x: u64| a <= x < a + n && #[trigger] self.key_spans(j, x) ==> j == k
    }

    /// Where region `k` alone holds the bytes, a lookup of any of them finds
    /// `k`, whatever the cache holds.
    pub proof fn lemma_sole_region_found(&self, k: usize, a: u64, n: nat, x: u64)
        requires
            self.sole_region(k, a, n),
            a <= x < a + n,
        ensures
            self.region_for(x) == Some(k),
    {
        assert(self.floor_region(x) == Some(k));
        let e = self.cache().entries()[crate::maps::tlb::tlb_index(lpf_of(x), 0) as int];
        if self.key_spans(e.mem64, x) {
            assert(e.mem64 == k);
        }
    }

    /// A state of the same layout has the same sole regions.
    pub proof fn lemma_same_layout_sole(&self, new: Maps, k: usize, a: u64, n: nat)
        requires
            self.same_layout(new),
            self.sole_region(k, a, n),
        ensures
            new.sole_region(k, a, n),
    {
        reveal(Maps::same_layout);
        assert forall|x: u64| a <= x < a + n implies #[trigger] new.floor_region(x) == Some(k) by {
            self.lemma_same_layout_fits(new, x, 0);
        }
        assert forall|j: usize, x: u64| a <= x < a + n && #[trigger] new.key_spans(j, x) implies j == k by {
            assert(self.regions().contains_key(j));
            assert(self.key_spans(j, x));
        }
    }

    /// After an ordered run of value writes (see `writes_ordered`), all
    /// inside the bytes that region `k` alone holds, each write reads back
    /// as the little endian value it wrote, and the state stays consistent.
    pub proof fn lemma_ordered_run_reads(&self, new: Maps, ws: Seq<(u64, Seq<u8>)>, k: usize, a: u64, n: nat)
        requires
            self.wf(),
            self.sole_region(k, a, n),
            self.wrote_values(new, ws),
            ws.len() > 0,
            writes_ordered(ws, 0),
            a <= ws[0].0,
            ws.last().0 + ws.last().1.len() <= a + n,
            forall|i: int| 0 <= i < ws.len() ==> (#[trigger] ws[i]).1.len() > 0,
        ensures
            new.wf(),
            forall|i: int|
                #![trigger ws[i]]
                0 <= i < ws.len() ==> new.fits(ws[i].0, ws[i].1.len()) && new.value_at(ws[i].0, ws[i].1.len())
                    == le_value(ws[i].1),
    {
        let last = ws.len() - 1;
        assert forall|i: int| 0 <= i < ws.len() implies a <= (#[trigger] ws[i]).0 && ws[i].0 + ws[i].1.len()
            <= a + n by {
            if i > 0 {
                lemma_writes_apart(ws, 0, 0, i);
            }
            if i < last {
                lemma_writes_apart(ws, 0, i, last);
            }
        }
        self.lemma_sole_run(new, ws, k, a, n);
        self.lemma_same_layout_sole(new, k, a, n);
        self.lemma_same_layout_wf(new);
        let m0 = self.regions()[k];
        let m1 = new.regions()[k];
        m0.lemma_ordered_readback(m1, ws);
        assert forall|i: int|
            #![trigger ws[i]]
            0 <= i < ws.len() implies new.fits(ws[i].0, ws[i].1.len()) && new.value_at(ws[i].0, ws[i].1.len())
                == le_value(ws[i].1) by {
            assert(a <= ws[i].0 && ws[i].0 + ws[i].1.len() <= a + n);
            new.lemma_sole_region_found(k, a, n, ws[i].0);
            assert(m1.holds(ws[i].0, ws[i].1.len()));
        }
    }

    /// A run of value writes, each inside the bytes that region `k` alone
    /// holds, writes them in `k` only: the region is the one before after
    /// the same writes, and the other regions are as they were.
    pub proof fn lemma_sole_run(&self, new: Maps, ws: Seq<(u64, Seq<u8>)>, k: usize, a: u64, n: nat)
        requires
            self.wf(),
            self.wrote_values(new, ws),
            self.sole_region(k, a, n),
            forall|i: int| 0 <= i < ws.len() ==> a <= (#[trigger] ws[i]).0 && ws[i].0 + ws[i].1.len() <= a + n,
            forall|i: int| 0 <= i < ws.len() ==> (#[trigger] ws[i]).1.len() > 0,
        ensures
            new.regions() == self.regions().insert(k, new.regions()[k]),
            self.regions()[k].wrote_all(new.regions()[k], ws),
            new.regions()[k].bytes().len() == self.regions()[k].bytes().len(),
            self.same_layout(new),
        decreases ws.len(),
    {
        reveal(Maps::wrote_values);
        if ws.len() == 0 {
            self.lemma_same_layout_refl();
            assert(self.regions().insert(k, self.regions()[k]) =~= self.regions());
        } else {
            let prev = ws.drop_last();
            let w = ws.last();
            let mid = choose|mid: Maps|
                self.wrote_values(mid, ws.drop_last()) && #[trigger] mid.wrote_value(new, ws.last().0, ws.last().1);
            assert forall|i: int| 0 <= i < prev.len() implies a <= (#[trigger] prev[i]).0 && prev[i].0
                + prev[i].1.len() <= a + n by {
                assert(prev[i] == ws[i]);
            }
            assert forall|i: int| 0 <= i < prev.len() implies (#[trigger] prev[i]).1.len() > 0 by {
                assert(prev[i] == ws[i]);
            }
            self.lemma_sole_run(mid, prev, k, a, n);
            self.lemma_same_layout_sole(mid, k, a, n);
            self.lemma_same_layout_wf(mid);
            assert(w == ws[ws.len() - 1]);
            mid.lemma_sole_region_found(k, a, n, w.0);
            assert(mid.fits(w.0, w.1.len()));
            mid.lemma_wrote_value_layout(new, w.0, w.1);
            self.lemma_same_layout_trans(mid, new);
            let m0 = self.regions()[k];
            assert(m0.holds(w.0, w.1.len()));
            assert(new.regions() =~= self.regions().insert(k, new.regions()[k]));
            m0.lemma_field_put(mid.regions()[k], new.regions()[k], prev, w.0, w.1);
            assert(prev.push(w) =~= ws);
        }
    }

    /// A lookup in a state of the same layout finds a region for an address
    /// whose region by base spans it.
    pub proof fn lemma_found_anyhow(&self, cur: Maps, a: u64)
        requires
            self.same_layout(cur),
            self.floor_region(a) is Some,
        ensures
            cur.region_for(a) is Some,
    {
        self.lemma_same_layout_fits(cur, a, 0);
    }

    /// The layout relation is transitive.
    pub proof fn lemma_same_layout_trans(&self, mid: Maps, new: Maps)
        requires
            self.same_layout(mid),
            mid.same_layout(new),
        ensures
            self.same_layout(new),
    {
        reveal(Maps::same_layout);
        assert forall|k: usize| #[trigger] self.regions().contains_key(k) implies new.regions()[k].base_view()
            == self.regions()[k].base_view() && new.regions()[k].bottom_view()
            == self.regions()[k].bottom_view() by {
            assert(mid.regions().contains_key(k));
        }
    }

    /// A run of value writes keeps the layout.
    pub proof fn lemma_wrote_values_layout(&self, new: Maps, ws: Seq<(u64, Seq<u8>)>)
        requires
            self.wf(),
            self.wrote_values(new, ws),
        ensures
            self.same_layout(new),
        decreases ws.len(),
    {
        reveal(Maps::wrote_values);
        if ws.len() == 0 {
            self.lemma_same_layout_refl();
        } else {
            let mid = choose|mid: Maps|
                self.wrote_values(mid, ws.drop_last()) && #[trigger] mid.wrote_value(
                    new,
                    ws.last().0,
                    ws.last().1,
                );
            self.lemma_wrote_values_layout(mid, ws.drop_last());
            mid.lemma_wrote_value_layout(new, ws.last().0, ws.last().1);
            self.lemma_same_layout_trans(mid, new);
        }
    }

    /// One more value write extends a run.
    pub proof fn lemma_wrote_values_push(&self, mid: Maps, new: Maps, ws: Seq<(u64, Seq<u8>)>, a: u64, b: Seq<u8>)
        requires
            self.wrote_values(mid, ws),
            mid.wrote_value(new, a, b),
        ensures
            self.wrote_values(new, ws.push((a, b))),
    {
        reveal(Maps::wrote_values);
        let vs = ws.push((a, b));
        assert(vs.drop_last() =~= ws);
        assert(vs.last() == (a, b));
        assert(self.wrote_values(mid, vs.drop_last()) && mid.wrote_value(new, vs.last().0, vs.last().1));
    }

    /// Two runs of value writes, one after the other, make one run.
    pub proof fn lemma_wrote_values_concat(
        &self,
        mid: Maps,
        new: Maps,
        ws: Seq<(u64, Seq<u8>)>,
        vs: Seq<(u64, Seq<u8>)>,
    )
        requires
            self.wrote_values(mid, ws),
            mid.wrote_values(new, vs),
        ensures
            self.wrote_values(new, ws + vs),
        decreases vs.len(),
    {
        reveal(Maps::wrote_values);
        if vs.len() == 0 {
            assert(ws + vs =~= ws);
        } else {
            let m2 = choose|m2: Maps|
                mid.wrote_values(m2, vs.drop_last()) && #[trigger] m2.wrote_value(
                    new,
                    vs.last().0,
                    vs.last().1,
                );
            self.lemma_wrote_values_concat(mid, m2, ws, vs.drop_last());
            assert((ws + vs).drop_last() =~= ws + vs.drop_last());
            assert((ws + vs).last() == vs.last());
        }
    }

    /// The step that a save takes for one field: before the write the
    /// state has the layout of the start, so the write fits when the field
    /// fits whatever the cache holds; after it the run is one longer.
    pub proof fn lemma_field_fits(&self, cur: Maps, a: u64, n: nat)
        requires
            self.same_layout(cur),
            self.fits_anyhow(a, n),
        ensures
            cur.fits(a, n),
    {
        reveal(Maps::same_layout);
        self.lemma_same_layout_fits(cur, a, n);
        cur.lemma_fits_anyhow(a, n);
    }

    /// After one more write in a save, the run from the start is one
    /// longer and the layout is still that of the start.
    pub proof fn lemma_field_written(
        &self,
        prev: Maps,
        cur: Maps,
        done: Seq<(u64, Seq<u8>)>,
        a: u64,
        b: Seq<u8>,
    )
        requires
            self.same_layout(prev),
            self.wrote_values(prev, done),
            prev.wrote_value(cur, a, b),
        ensures
            self.same_layout(cur),
            self.wrote_values(cur, done.push((a, b))),
    {
        reveal(Maps::same_layout);
        prev.lemma_wrote_value_layout(cur, a, b);
        self.lemma_same_layout_trans(prev, cur);
        self.lemma_wrote_values_push(prev, cur, done, a, b);
    }

    /// The bytes of the regions with keys below `n`.
    pub open spec fn size_below(&self, n: nat) -> nat
        decreases n,
    {
        if n == 0 {
            0
        } else {
            self.size_below((n - 1) as nat) + if self.regions().contains_key((n - 1) as usize) {
                self.regions()[(n - 1) as usize].bytes().len()
            } else {
                0
            }
        }
    }

    /// The bytes of all regions.
    pub open spec fn total_size(&self) -> nat {
        self.size_below(usize::MAX as nat + 1)
    }

    /// No key lies from `a` to `b` (excluded): the sizes below agree.
    pub proof fn lemma_size_gap(&self, a: nat, b: nat)
        requires
            a <= b <= usize::MAX as nat + 1,
            forall|k: usize| a <= k < b ==> !#[trigger] self.regions().contains_key(k),
        ensures
            self.size_below(b) == self.size_below(a),
        decreases b - a,
    {
        if a < b {
            self.lemma_size_gap(a, (b - 1) as nat);
            assert(!self.regions().contains_key((b - 1) as usize));
        }
    }

    /// Regions `k1` and `k2`, when both exist and their names differ, span
    /// no common address.
    pub open spec fn pair_ok(&self, k1: usize, k2: usize) -> bool {
        self.regions().contains_key(k1) && self.regions().contains_key(k2)
            && self.regions()[k1].name_view() != self.regions()[k2].name_view() ==> !regions_overlap(
            self.regions()[k1],
            self.regions()[k2],
        )
    }

    /// Region `k` overlaps no region with another name, and its bytes
    /// reach exactly its bottom.
    pub open spec fn row_ok(&self, k: usize) -> bool {
        &&& forall|k2: usize| #[trigger] self.pair_ok(k, k2)
        &&& self.regions().contains_key(k) ==> self.regions()[k].base_view() + self.regions()[k].bytes().len()
            == self.regions()[k].bottom_view()
    }

    /// Regions with different names span no common address, and every
    /// region's bytes reach exactly its bottom.
    pub open spec fn consistent(&self) -> bool {
        forall|k: usize| self.regions().contains_key(k) ==> #[trigger] self.row_ok(k)
    }

    /// The first region, in key order, whose name ends with `.pe`.
    pub open spec fn first_pe_below(&self, n: nat) -> Option<usize>
        decreases n,
    {
        if n == 0 {
            None
        } else {
            match self.first_pe_below((n - 1) as nat) {
                Some(k) => Some(k),
                None => if self.regions().contains_key((n - 1) as usize) && ends_with_pe(
                    self.regions()[(n - 1) as usize].name_view(),
                ) {
                    Some((n - 1) as usize)
                } else {
                    None
                },
            }
        }
    }

    /// No key lies from `a` to `b` (excluded): the first `.pe` region below
    /// them agrees.
    pub proof fn lemma_pe_gap(&self, a: nat, b: nat)
        requires
            a <= b <= usize::MAX as nat + 1,
            forall|k: usize| a <= k < b ==> !#[trigger] self.regions().contains_key(k),
        ensures
            self.first_pe_below(b) == self.first_pe_below(a),
        decreases b - a,
    {
        if a < b {
            self.lemma_pe_gap(a, (b - 1) as nat);
            assert(!self.regions().contains_key((b - 1) as usize));
        }
    }

    /// Sizes below a bound only grow with it.
    pub proof fn lemma_size_monotone(&self, a: nat, b: nat)
        requires
            a <= b,
        ensures
            self.size_below(a) <= self.size_below(b),
        decreases b - a,
    {
        if a < b {
            self.lemma_size_monotone(a, (b - 1) as nat);
        }
    }

    /// Once a `.pe` region is found below a bound, it stays the first one
    /// below higher bounds.
    pub proof fn lemma_pe_stays(&self, a: nat, b: nat)
        requires
            a <= b,
            self.first_pe_below(a) is Some,
        ensures
            self.first_pe_below(b) == self.first_pe_below(a),
        decreases b - a,
    {
        if a < b {
            self.lemma_pe_stays(a, (b - 1) as nat);
        }
    }

    /// The search for `sz` free bytes between `bottom` and `top`, going
    /// through the regions by base from past `after` with the candidate
    /// `prev`: a region below `bottom` (when allocating a library) or based
    /// below the candidate is passed over; a gap larger than `sz` before a
    /// region gives the candidate; otherwise the candidate moves to the
    /// region's bottom rounded up. The outer `None` marks a search that
    /// rounds past the largest address or ends with the candidate past the
    /// top.
    pub open spec fn alloc_scan(
        &self,
        after: Option<u64>,
        prev: u64,
        sz: u64,
        bottom: u64,
        top: u64,
        lib: bool,
    ) -> Option<Option<u64>>
        decreases (match after {
            Some(a) => u64::MAX - a,
            None => u64::MAX + 1,
        }),
    {
        if !has_next(self.bases(), after) {
            if top < prev && top + 0xfff > u64::MAX {
                None
            } else {
                alloc_finish(prev, sz, top)
            }
        } else {
            let b = choose|b: u64| is_next(self.bases(), after, b);
            if !is_next(self.bases(), after, b) {
                None
            } else {
                let m = self.regions()[self.bases()[b]];
                let base = m.base_view();
                if lib && base < bottom {
                    self.alloc_scan(Some(b), prev, sz, bottom, top, lib)
                } else if prev > base {
                    self.alloc_scan(Some(b), prev, sz, bottom, top, lib)
                } else if base - prev > sz {
                    Some(Some(prev))
                } else if m.bottom_view() + 0xfff > u64::MAX {
                    None
                } else {
                    self.alloc_scan(Some(b), page_up(m.bottom_view()), sz, bottom, top, lib)
                }
            }
        }
    }

    /// `a` is page aligned, at or above `bottom` rounded up, and its `sz`
    /// bytes end below `top` or below the base of a region.
    pub open spec fn room_found(&self, a: u64, sz: u64, bottom: u64, top: u64) -> bool {
        &&& a & 0xfff == 0
        &&& a >= page_up(bottom)
        &&& (a + sz < top || exists|b: u64| self.bases().contains_key(b) && a + sz < b)
    }

    /// No two regions share an address.
    pub open spec fn regions_apart(&self) -> bool {
        forall|i: usize, j: usize|
            #![trigger self.regions()[i], self.regions()[j]]
            self.regions().contains_key(i) && self.regions().contains_key(j) && i != j ==> !regions_overlap(
                self.regions()[i],
                self.regions()[j],
            )
    }

    /// Every region starts on a page.
    pub open spec fn bases_aligned(&self) -> bool {
        forall|k: usize| #[trigger] self.regions().contains_key(k) ==> self.regions()[k].base_view() & 0xfff == 0
    }

    /// Every region passed (base not past `after`) or starting below `prev`
    /// ends at or below `prev`.
    pub open spec fn ends_by(&self, after: Option<u64>, prev: u64) -> bool {
        forall|k: usize|
            #[trigger] self.regions().contains_key(k) && (!after_ok(after, self.regions()[k].base_view())
                || self.regions()[k].base_view() < prev) ==> self.regions()[k].bottom_view() <= prev
    }

    /// No region spans any of the `sz` addresses from `a`.
    pub open spec fn room_free(&self, a: u64, sz: u64) -> bool {
        forall|k: usize, x: u64|
            #![trigger self.regions()[k], spans(self.regions()[k], x)]
            self.regions().contains_key(k) && a <= x < a + sz ==> !spans(self.regions()[k], x)
    }

    /// What a search for free space (for a library or not) finds where no
    /// two regions share an address, every region starts on a page and the
    /// regions passed or starting below the candidate end by it, overlaps no
    /// region.
    pub proof fn lemma_alloc_scan_apart(
        &self,
        after: Option<u64>,
        prev: u64,
        sz: u64,
        bottom: u64,
        top: u64,
        lib: bool,
    )
        requires
            self.wf(),
            self.regions_apart(),
            self.bases_aligned(),
            self.ends_by(after, prev),
            bottom <= prev,
            self.alloc_scan(after, prev, sz, bottom, top, lib) matches Some(Some(_)),
        ensures
            self.room_free(self.alloc_scan(after, prev, sz, bottom, top, lib)->0->0, sz),
        decreases (match after {
            Some(a) => u64::MAX - a,
            None => u64::MAX + 1,
        }),
    {
        if !has_next(self.bases(), after) {
            let a = self.alloc_scan(after, prev, sz, bottom, top, lib)->0->0;
            if top < prev {
                lemma_page_up_facts(top);
            }
            assert(a == prev);
            assert forall|k: usize, x: u64| self.regions().contains_key(k) && a <= x < a + sz implies !spans(
                self.regions()[k],
                x,
            ) by {
                let b = self.regions()[k].base_view();
                assert(self.bases().contains_key(b));
                assert(!after_ok(after, b));
            }
        } else {
            let b = choose|b: u64| is_next(self.bases(), after, b);
            assert(is_next(self.bases(), after, b));
            let c = self.bases()[b];
            let m = self.regions()[c];
            assert(m.base_view() == b);
            if (lib && b < bottom) || prev > b {
                assert forall|k: usize| #[trigger] self.regions().contains_key(k) && (!after_ok(
                    Some(b),
                    self.regions()[k].base_view(),
                ) || self.regions()[k].base_view() < prev) implies self.regions()[k].bottom_view() <= prev by {
                    let mb = self.regions()[k].base_view();
                    assert(self.bases().contains_key(mb));
                    if mb < b {
                        assert(!after_ok(after, mb));
                    }
                }
                self.lemma_alloc_scan_apart(Some(b), prev, sz, bottom, top, lib);
            } else if b - prev > sz {
                let a = prev;
                assert forall|k: usize, x: u64| self.regions().contains_key(k) && a <= x < a + sz implies !spans(
                    self.regions()[k],
                    x,
                ) by {
                    let mb = self.regions()[k].base_view();
                    assert(self.bases().contains_key(mb));
                    if after_ok(after, mb) && mb >= prev {
                        assert(b <= mb);
                    }
                }
            } else if m.bottom_view() + 0xfff > u64::MAX {
            } else {
                let p2 = page_up(m.bottom_view());
                lemma_page_up_facts(m.bottom_view());
                assert forall|k: usize| #[trigger] self.regions().contains_key(k) && (!after_ok(
                    Some(b),
                    self.regions()[k].base_view(),
                ) || self.regions()[k].base_view() < p2) implies self.regions()[k].bottom_view() <= p2 by {
                    let d = self.regions()[k];
                    let mb = d.base_view();
                    assert(self.bases().contains_key(mb));
                    if mb < b {
                        assert(!after_ok(after, mb));
                    } else if mb == b {
                        assert(k == c);
                    } else if d.bottom_view() > mb {
                        assert(k != c);
                        if mb < m.bottom_view() {
                            assert(spans(m, mb) && spans(d, mb));
                            assert(regions_overlap(self.regions()[c], self.regions()[k]));
                        }
                        lemma_aligned_past_page_up(mb, m.bottom_view());
                    }
                }
                self.lemma_alloc_scan_apart(Some(b), p2, sz, bottom, top, lib);
            }
        }
    }

    /// What a search for free space finds from a page aligned candidate at
    /// or above the rounded bottom is page aligned, at or above the rounded
    /// bottom, and its `sz` bytes end below the top or below a region's base.
    pub proof fn lemma_alloc_scan_found(
        &self,
        after: Option<u64>,
        prev: u64,
        sz: u64,
        bottom: u64,
        top: u64,
        lib: bool,
    )
        requires
            self.wf(),
            prev & 0xfff == 0,
            prev >= page_up(bottom),
            self.alloc_scan(after, prev, sz, bottom, top, lib) matches Some(Some(_)),
        ensures
            self.room_found(self.alloc_scan(after, prev, sz, bottom, top, lib)->0->0, sz, bottom, top),
        decreases (match after {
            Some(a) => u64::MAX - a,
            None => u64::MAX + 1,
        }),
    {
        if !has_next(self.bases(), after) {
            let p = if top < prev { page_up(top) } else { prev };
            if top < prev {
                lemma_page_up_facts(top);
            }
        } else {
            let b = choose|b: u64| is_next(self.bases(), after, b);
            assert(is_next(self.bases(), after, b));
            let m = self.regions()[self.bases()[b]];
            let base = m.base_view();
            assert(base == b);
            if lib && base < bottom {
                self.lemma_alloc_scan_found(Some(b), prev, sz, bottom, top, lib);
            } else if prev > base {
                self.lemma_alloc_scan_found(Some(b), prev, sz, bottom, top, lib);
            } else if base - prev > sz {
                assert(self.bases().contains_key(b) && prev + sz < b);
            } else if m.bottom_view() + 0xfff > u64::MAX {
            } else {
                lemma_page_up_facts(m.bottom_view());
                self.lemma_alloc_scan_found(Some(b), page_up(m.bottom_view()), sz, bottom, top, lib);
            }
        }
    }

    /// The lowest base past `after` is the one that has the property.
    pub proof fn lemma_next_base(&self, after: Option<u64>, b: u64)
        requires
            is_next(self.bases(), after, b),
        ensures
            (choose|c: u64| is_next(self.bases(), after, c)) == b,
    {
        let c = choose|c: u64| is_next(self.bases(), after, c);
        assert(is_next(self.bases(), after, c));
    }

    /// The size that a search for free space looks for: at most 0xffffff,
    /// rounded up to a multiple of 0x1000.
    pub open spec fn alloc_size(sz: u64) -> u64 {
        page_up(if sz > 0xffffff {
            0xffffff
        } else {
            sz
        })
    }

    /// The first region, in key order, with the name.
    pub open spec fn first_named_below(&self, n: nat, name: Seq<char>) -> Option<usize>
        decreases n,
    {
        if n == 0 {
            None
        } else {
            match self.first_named_below((n - 1) as nat, name) {
                Some(k) => Some(k),
                None => if self.regions().contains_key((n - 1) as usize) && self.regions()[(n
                    - 1) as usize].name_view() == name {
                    Some((n - 1) as usize)
                } else {
                    None
                },
            }
        }
    }

    pub proof fn lemma_named_gap(&self, a: nat, b: nat, name: Seq<char>)
        requires
            a <= b <= usize::MAX as nat + 1,
            forall|k: usize| a <= k < b ==> !#[trigger] self.regions().contains_key(k),
        ensures
            self.first_named_below(b, name) == self.first_named_below(a, name),
        decreases b - a,
    {
        if a < b {
            self.lemma_named_gap(a, (b - 1) as nat, name);
            assert(!self.regions().contains_key((b - 1) as usize));
        }
    }

    pub proof fn lemma_named_stays(&self, a: nat, b: nat, name: Seq<char>)
        requires
            a <= b,
            self.first_named_below(a, name) is Some,
        ensures
            self.first_named_below(b, name) == self.first_named_below(a, name),
        decreases b - a,
    {
        if a < b {
            self.lemma_named_stays(a, (b - 1) as nat, name);
        }
    }

    /// The byte at `addr` in the region found for it, if any.
    pub open spec fn byte_at(&self, addr: u64) -> Option<u8> {
        match self.region_for(addr) {
            Some(k) => Some(self.regions()[k].bytes()[self.regions()[k].offset(addr)]),
            None => None,
        }
    }

    /// The characters (one per byte) of the zero terminated string at
    /// `addr`, stopping before the terminator or at the first unmapped
    /// address.
    pub open spec fn scan_chars(&self, addr: u64) -> Seq<char>
        decreases u64::MAX - addr,
    {
        match self.byte_at(addr) {
            None => Seq::empty(),
            Some(b) => if b == 0 {
                Seq::empty()
            } else if addr == u64::MAX {
                seq![b as char]
            } else {
                seq![b as char] + self.scan_chars((addr + 1) as u64)
            },
        }
    }

    /// The scan of the string at `addr` ends before it would step past the
    /// largest address.
    pub open spec fn scan_ends(&self, addr: u64) -> bool
        decreases u64::MAX - addr,
    {
        match self.byte_at(addr) {
            None => true,
            Some(b) => if b == 0 {
                true
            } else if addr == u64::MAX {
                false
            } else {
                self.scan_ends((addr + 1) as u64)
            },
        }
    }

    /// The number of nonzero words before a zero word, scanning the words
    /// at `a`, `a + 2`, ... for at most `left` words; `None` when no zero
    /// word comes.
    pub open spec fn wide_count(&self, a: u64, left: nat) -> Option<nat>
        decreases left,
    {
        if left == 0 {
            None
        } else if self.value_at(a, 2) == 0 {
            Some(0)
        } else {
            match self.wide_count((a + 2) as u64, (left - 1) as nat) {
                Some(n) => Some(n + 1),
                None => None,
            }
        }
    }

    /// Every word that the scan from `a` reads lies in the region found for
    /// its address.
    pub open spec fn wide_scan_ok(&self, a: u64, left: nat) -> bool
        decreases left,
    {
        left == 0 || (self.fits(a, 2) && (self.value_at(a, 2) == 0 || self.wide_scan_ok(
            (a + 2) as u64,
            (left - 1) as nat,
        )))
    }

    /// The first region, in key order below `n`, that has the property.
    pub open spec fn first_key_below(&self, n: nat, p: spec_fn(Mem64) -> bool) -> Option<usize>
        decreases n,
    {
        if n == 0 {
            None
        } else {
            match self.first_key_below((n - 1) as nat, p) {
                Some(k) => Some(k),
                None => if self.regions().contains_key((n - 1) as usize) && p(
                    self.regions()[(n - 1) as usize],
                ) {
                    Some((n - 1) as usize)
                } else {
                    None
                },
            }
        }
    }

    pub proof fn lemma_first_key_gap(&self, a: nat, b: nat, p: spec_fn(Mem64) -> bool)
        requires
            a <= b <= usize::MAX as nat + 1,
            forall|k: usize| a <= k < b ==> !#[trigger] self.regions().contains_key(k),
        ensures
            self.first_key_below(b, p) == self.first_key_below(a, p),
        decreases b - a,
    {
        if a < b {
            self.lemma_first_key_gap(a, (b - 1) as nat, p);
            assert(!self.regions().contains_key((b - 1) as usize));
        }
    }

    pub proof fn lemma_first_key_stays(&self, a: nat, b: nat, p: spec_fn(Mem64) -> bool)
        requires
            a <= b,
            self.first_key_below(a, p) is Some,
        ensures
            self.first_key_below(b, p) == self.first_key_below(a, p),
        decreases b - a,
    {
        if a < b {
            self.lemma_first_key_stays(a, (b - 1) as nat, p);
        }
    }

    /// The addresses, region after region in key order below `n`, at which
    /// the pattern lies, counting only addresses below 0x70000000.
    pub open spec fn matches_below(&self, n: nat, pat: Seq<u8>) -> Seq<u64>
        decreases n,
    {
        if n == 0 {
            Seq::empty()
        } else {
            self.matches_below((n - 1) as nat, pat) + if self.regions().contains_key((n - 1) as usize) {
                let m = self.regions()[(n - 1) as usize];
                match_addrs(m, m.base_view(), if m.bottom_view() < 0x7000_0000 {
                    m.bottom_view()
                } else {
                    0x7000_0000
                }, pat)
            } else {
                Seq::empty()
            }
        }
    }

    pub proof fn lemma_matches_gap(&self, a: nat, b: nat, pat: Seq<u8>)
        requires
            a <= b <= usize::MAX as nat + 1,
            forall|k: usize| a <= k < b ==> !#[trigger] self.regions().contains_key(k),
        ensures
            self.matches_below(b, pat) == self.matches_below(a, pat),
        decreases b - a,
    {
        if a < b {
            self.lemma_matches_gap(a, (b - 1) as nat, pat);
            assert(!self.regions().contains_key((b - 1) as usize));
            assert(self.matches_below(b, pat) =~= self.matches_below((b - 1) as nat, pat));
        }
    }

    /// A lookup that changes no region keeps the invariant.
    pub proof fn lemma_lookup_keeps_wf(&self, new: Maps, addr: u64)
        requires
            self.wf(),
            new.regions() == self.regions(),
            self.looked_up(new, addr),
        ensures
            new.wf(),
    {
    }

    /// The region that a lookup of `addr` finds (see `region_for`); the
    /// cache is read, not updated.
    pub fn get_mem_by_addr(&self, addr: u64) -> (r: Option<&Mem64>)
        requires
            self.wf(),
        ensures
            r is Some <==> self.region_for(addr) is Some,
            r matches Some(m) ==> *m == self.regions()[self.region_for(addr)->0],
    {
        let key = self.tlb.get_entry_of(addr, 0).get_mem();
        match slab_get(&self.mem_slab, key) {
            Some(mem) => {
                if mem.inside(addr) {
                    return Some(mem);
                }
            },
            None => {},
        }
        let k = match bases_floor(&self.maps, addr) {
            Some(p) => {
                proof {
                    self.lemma_floor_base(addr, p.0);
                }
                p.1
            },
            None => {
                return None;
            },
        };
        match slab_get(&self.mem_slab, k) {
            Some(mem) => {
                if mem.inside(addr) {
                    Some(mem)
                } else {
                    None
                }
            },
            None => None,
        }
    }

    /// The region that a lookup of `addr` finds (see `region_for`), to be
    /// changed in place; the cache entry of the page is emptied when it
    /// names no region, and records a region found by base.
    pub fn get_mem_by_addr_mut(&mut self, addr: u64) -> (r: Option<&mut Mem64>)
        requires
            old(self).wf(),
        ensures
            r is Some <==> old(self).region_for(addr) is Some,
            r is None ==> final(self).regions() == old(self).regions(),
            r is Some ==> *r->0 == old(self).regions()[old(self).region_for(addr)->0]
                && final(self).regions() == old(self).regions().insert(
                old(self).region_for(addr)->0,
                *final(r->0),
            ),
            final(self).cache().wf(),
            final(self).cache().entries() == old(self).cache_after_lookup(addr),
            final(self).bases() == old(self).bases(),
            final(self).names() == old(self).names(),
            final(self).banzai_view() == old(self).banzai_view(),
            final(self).bits64_view() == old(self).bits64_view(),
    {
        let ghost i = crate::maps::tlb::tlb_index(lpf_of(addr), 0) as int;
        let ghost start = old(self).cache().entries();
        proof {
            crate::maps::tlb::lemma_tlb_index_bound(lpf_of(addr), 0);
        }
        let key = self.tlb.get_entry_of(addr, 0).get_mem();
        let present = match slab_get(&self.mem_slab, key) {
            Some(mem) => Some(mem.inside(addr)),
            None => None,
        };
        match present {
            Some(true) => {
                return slab_get_mut(&mut self.mem_slab, key);
            },
            Some(false) => {
                assert(start.update(i, start[i]) =~= start);
            },
            None => {
                self.tlb.get_entry_of_mut(addr, 0).invalidate();
            },
        }
        let k = match bases_floor(&self.maps, addr) {
            Some(p) => {
                proof {
                    old(self).lemma_floor_base(addr, p.0);
                }
                p.1
            },
            None => {
                return None;
            },
        };
        let inside = match slab_get(&self.mem_slab, k) {
            Some(mem) => mem.inside(addr),
            None => {
                return None;
            },
        };
        if !inside {
            return None;
        }
        let ghost mid = self.tlb.entries();
        self.tlb.get_entry_of_mut(addr, 0).set_mem(LPF_OF(addr), k);
        assert(self.tlb.entries() =~= start.update(i, TLBEntry { lpf: lpf_of(addr), mem64: k }));
        slab_get_mut(&mut self.mem_slab, k)
    }

    /// The byte at `addr`, or `None` when no region spans it.
    pub fn read_byte(&self, addr: u64) -> (r: Option<u8>)
        requires
            self.wf(),
        ensures
            r is Some <==> self.region_for(addr) is Some,
            r matches Some(b) ==> b == self.regions()[self.region_for(addr)->0].bytes()[self.regions()[self.region_for(
                addr,
            )->0].offset(addr)],
    {
        match self.get_mem_by_addr(addr) {
            Some(mem) => {
                proof {
                    self.lemma_fits_holds(addr, 1);
                }
                Some(mem.read_byte(addr))
            },
            None => None,
        }
    }

    /// The little endian word at `addr`, or `None` when no region spans `addr` (tolerated only in banzai mode).
    pub fn read_word(&self, addr: u64) -> (r: Option<u16>)
        requires
            self.wf(),
            addr + 1 <= u64::MAX,
            self.region_for(addr) is Some ==> self.fits(addr, 2),
            self.region_for(addr) is None ==> self.banzai_view(),
        ensures
            r is Some <==> self.region_for(addr) is Some,
            r matches Some(v) ==> v == self.value_at(addr, 2),
    {
        let end_addr = addr + 1;
        match self.get_mem_by_addr(addr) {
            Some(mem) => {
                proof {
                    self.lemma_fits_holds(addr, 2);
                }
                if mem.inside(end_addr) {
                    Some(mem.read_word(addr))
                } else {
                    None
                }
            },
            None => None,
        }
    }

    /// The little endian double word at `addr`, or `None` when no region spans `addr` (tolerated only in banzai mode).
    pub fn read_dword(&self, addr: u64) -> (r: Option<u32>)
        requires
            self.wf(),
            addr + 3 <= u64::MAX,
            self.region_for(addr) is Some ==> self.fits(addr, 4),
            self.region_for(addr) is None ==> self.banzai_view(),
        ensures
            r is Some <==> self.region_for(addr) is Some,
            r matches Some(v) ==> v == self.value_at(addr, 4),
    {
        let end_addr = addr + 3;
        match self.get_mem_by_addr(addr) {
            Some(mem) => {
                proof {
                    self.lemma_fits_holds(addr, 4);
                }
                if mem.inside(end_addr) {
                    Some(mem.read_dword(addr))
                } else {
                    None
                }
            },
            None => None,
        }
    }

    /// The little endian quad word at `addr`, or `None` when no region spans `addr` (tolerated only in banzai mode).
    pub fn read_qword(&self, addr: u64) -> (r: Option<u64>)
        requires
            self.wf(),
            addr + 7 <= u64::MAX,
            self.region_for(addr) is Some ==> self.fits(addr, 8),
            self.region_for(addr) is None ==> self.banzai_view(),
        ensures
            r is Some <==> self.region_for(addr) is Some,
            r matches Some(v) ==> v == self.value_at(addr, 8),
    {
        let end_addr = addr + 7;
        match self.get_mem_by_addr(addr) {
            Some(mem) => {
                proof {
                    self.lemma_fits_holds(addr, 8);
                }
                if mem.inside(end_addr) {
                    Some(mem.read_qword(addr))
                } else {
                    None
                }
            },
            None => None,
        }
    }

    /// The little endian 128 bit value at `addr`, or `None` when no region spans `addr` (tolerated only in banzai mode).
    pub fn read_128bits_le(&self, addr: u64) -> (r: Option<u128>)
        requires
            self.wf(),
            addr + 15 <= u64::MAX,
            self.region_for(addr) is Some ==> self.fits(addr, 16),
            self.region_for(addr) is None ==> self.banzai_view(),
        ensures
            r is Some <==> self.region_for(addr) is Some,
            r matches Some(v) ==> v == self.value_at(addr, 16),
    {
        let end_addr = addr + 15;
        match self.get_mem_by_addr(addr) {
            Some(mem) => {
                proof {
                    self.lemma_fits_holds(addr, 16);
                }
                if mem.inside(end_addr) {
                    Some(mem.read_oword(addr))
                } else {
                    None
                }
            },
            None => None,
        }
    }

    /// Writes the word little endian at `addr`; `false` when no region spans its bytes (tolerated only in banzai mode).
    pub fn write_word(&mut self, addr: u64, value: u16) -> (r: bool)
        requires
            old(self).wf(),
            addr + 1 <= u64::MAX,
            !old(self).banzai_view() ==> old(self).fits(addr, 2),
        ensures
            r == old(self).fits(addr, 2),
            r ==> old(self).stored(*final(self), addr, le_bytes(value as nat, 2)),
            !r ==> final(self).regions() == old(self).regions(),
            old(self).looked_up(*final(self), addr),
            final(self).wf(),
    {
        let end_addr = addr + 1;
        let ghost before = *old(self);
        let done = match self.get_mem_by_addr_mut(addr) {
            Some(mem) => {
                proof {
                    before.lemma_fits_holds(addr, 1);
                }
                if mem.inside(end_addr) {
                    proof {
                        before.lemma_fits_holds(addr, 2);
                    }
                    mem.write_word(addr, value);
                    true
                } else {
                    false
                }
            },
            None => false,
        };
        proof {
            if done {
                before.lemma_store_keeps_wf(*self, addr, le_bytes(value as nat, 2));
            } else {
                assert(self.regions() =~= before.regions());
                before.lemma_lookup_keeps_wf(*self, addr);
            }
        }
        done
    }

    /// Writes the double word little endian at `addr`; `false` when no region spans its bytes (tolerated only in banzai mode).
    pub fn write_dword(&mut self, addr: u64, value: u32) -> (r: bool)
        requires
            old(self).wf(),
            addr + 3 <= u64::MAX,
            !old(self).banzai_view() ==> old(self).fits(addr, 4),
        ensures
            r == old(self).fits(addr, 4),
            r ==> old(self).stored(*final(self), addr, le_bytes(value as nat, 4)),
            !r ==> final(self).regions() == old(self).regions(),
            old(self).looked_up(*final(self), addr),
            final(self).wf(),
    {
        let end_addr = addr + 3;
        let ghost before = *old(self);
        let done = match self.get_mem_by_addr_mut(addr) {
            Some(mem) => {
                proof {
                    before.lemma_fits_holds(addr, 1);
                }
                if mem.inside(end_addr) {
                    proof {
                        before.lemma_fits_holds(addr, 4);
                    }
                    mem.write_dword(addr, value);
                    true
                } else {
                    false
                }
            },
            None => false,
        };
        proof {
            if done {
                before.lemma_store_keeps_wf(*self, addr, le_bytes(value as nat, 4));
            } else {
                assert(self.regions() =~= before.regions());
                before.lemma_lookup_keeps_wf(*self, addr);
            }
        }
        done
    }

    /// Writes the quad word little endian at `addr`; `false` when no region spans its bytes (tolerated only in banzai mode).
    pub fn write_qword(&mut self, addr: u64, value: u64) -> (r: bool)
        requires
            old(self).wf(),
            addr + 7 <= u64::MAX,
            !old(self).banzai_view() ==> old(self).fits(addr, 8),
        ensures
            r == old(self).fits(addr, 8),
            r ==> old(self).stored(*final(self), addr, le_bytes(value as nat, 8)),
            !r ==> final(self).regions() == old(self).regions(),
            old(self).looked_up(*final(self), addr),
            final(self).wf(),
    {
        let end_addr = addr + 7;
        let ghost before = *old(self);
        let done = match self.get_mem_by_addr_mut(addr) {
            Some(mem) => {
                proof {
                    before.lemma_fits_holds(addr, 1);
                }
                if mem.inside(end_addr) {
                    proof {
                        before.lemma_fits_holds(addr, 8);
                    }
                    mem.write_qword(addr, value);
                    true
                } else {
                    false
                }
            },
            None => false,
        };
        proof {
            if done {
                before.lemma_store_keeps_wf(*self, addr, le_bytes(value as nat, 8));
            } else {
                assert(self.regions() =~= before.regions());
                before.lemma_lookup_keeps_wf(*self, addr);
            }
        }
        done
    }

    /// Writes the byte at `addr`; `false` when no region spans it
    /// (tolerated only in banzai mode).
    pub fn write_byte(&mut self, addr: u64, value: u8) -> (r: bool)
        requires
            old(self).wf(),
            !old(self).banzai_view() ==> old(self).fits(addr, 1),
        ensures
            r == old(self).fits(addr, 1),
            r ==> old(self).stored(*final(self), addr, seq![value]),
            !r ==> final(self).regions() == old(self).regions(),
            old(self).looked_up(*final(self), addr),
            final(self).wf(),
    {
        let ghost before = *old(self);
        let done = match self.get_mem_by_addr_mut(addr) {
            Some(mem) => {
                proof {
                    before.lemma_fits_holds(addr, 1);
                }
                if mem.inside(addr) {
                    mem.write_byte(addr, value);
                    true
                } else {
                    false
                }
            },
            None => false,
        };
        proof {
            if done {
                before.lemma_store_keeps_wf(*self, addr, seq![value]);
            } else {
                assert(self.regions() =~= before.regions());
                before.lemma_lookup_keeps_wf(*self, addr);
            }
        }
        done
    }

    /// Writes the bytes at `addr` when the region found for `addr` spans
    /// their last one; otherwise writes nothing (an unmapped `addr` is
    /// tolerated only in banzai mode).
    pub fn write_bytes(&mut self, addr: u64, data: Vec<u8>)
        requires
            old(self).wf(),
            1 <= addr + data@.len() <= u64::MAX,
            !old(self).banzai_view() ==> old(self).region_for(addr) is Some,
        ensures
            old(self).bytes_written(*final(self), addr, data@),
    {
        let end_addr = addr + (data.len() as u64) - 1;
        let ghost before = *old(self);
        let done = match self.get_mem_by_addr_mut(addr) {
            Some(mem) => {
                proof {
                    before.lemma_fits_holds(addr, 1);
                }
                if mem.inside(end_addr) {
                    mem.write_bytes(addr, data.as_slice());
                    true
                } else {
                    false
                }
            },
            None => false,
        };
        proof {
            if done {
                before.lemma_store_keeps_wf(*self, addr, data@);
            } else {
                assert(self.regions() =~= before.regions());
                before.lemma_lookup_keeps_wf(*self, addr);
            }
        }
    }

    /// Writes `amount` copies of `b` at `addr` (see `write_bytes`).
    pub fn memset(&mut self, addr: u64, b: u8, amount: usize)
        requires
            old(self).wf(),
            1 <= addr + amount <= u64::MAX,
            !old(self).banzai_view() ==> old(self).region_for(addr) is Some,
        ensures
            old(self).bytes_written(*final(self), addr, Seq::new(amount as nat, |i: int| b)),
    {
        let mut v: Vec<u8> = Vec::new();
        let mut i: usize = 0;
        while i < amount
            invariant
                i <= amount,
                v@ == Seq::new(i as nat, |j: int| b),
            decreases amount - i,
        {
            v.push(b);
            i = i + 1;
            assert(v@ =~= Seq::new(i as nat, |j: int| b));
        }
        self.write_bytes(addr, v);
    }

    /// Up to `sz` bytes at `addr`, cut at the end of the region found for
    /// `addr`, or `None` when no region spans `addr`.
    pub fn read_bytes_option(&self, addr: u64, sz: usize) -> (r: Option<&[u8]>)
        requires
            self.wf(),
            self.region_for(addr) is Some ==> self.regions()[self.region_for(addr)->0].offset(addr) + sz
                <= usize::MAX,
        ensures
            r is Some <==> self.region_for(addr) is Some,
            r matches Some(b) ==> b@ == self.bytes_from(addr, sz as nat),
    {
        match self.get_mem_by_addr(addr) {
            Some(mem) => {
                proof {
                    self.lemma_fits_holds(addr, 1);
                }
                Some(mem.read_bytes(addr, sz))
            },
            None => None,
        }
    }

    /// Up to `sz` bytes at `addr`, cut at the end of the region found for
    /// `addr`, which must exist.
    pub fn read_bytes(&mut self, addr: u64, sz: usize) -> (r: &[u8])
        requires
            old(self).wf(),
            old(self).region_for(addr) is Some,
            old(self).regions()[old(self).region_for(addr)->0].offset(addr) + sz <= usize::MAX,
        ensures
            r@ == old(self).bytes_from(addr, sz as nat),
            final(self).regions() == old(self).regions(),
            old(self).looked_up(*final(self), addr),
            final(self).wf(),
    {
        let ghost before = *old(self);
        proof {
            before.lemma_fits_holds(addr, 1);
        }
        match self.get_mem_by_addr_mut(addr) {
            Some(mem) => mem.read_bytes(addr, sz),
            None => &[],
        }
    }

    /// Copies up to `size` bytes from `from` (see `read_bytes_option`) to
    /// `to` (see `write_bytes`); `false` when no region spans `from`.
    pub fn memcpy(&mut self, to: u64, from: u64, size: usize) -> (r: bool)
        requires
            old(self).wf(),
            old(self).region_for(from) is Some ==> {
                &&& old(self).regions()[old(self).region_for(from)->0].offset(from) + size <= usize::MAX
                &&& 1 <= to + old(self).bytes_from(from, size as nat).len() <= u64::MAX
                &&& !old(self).banzai_view() ==> old(self).region_for(to) is Some
            },
        ensures
            r == old(self).region_for(from) is Some,
            r ==> old(self).bytes_written(*final(self), to, old(self).bytes_from(from, size as nat)),
            !r ==> *final(self) == *old(self),
    {
        let b = match self.read_bytes_option(from, size) {
            None => {
                return false;
            },
            Some(b) => vstd::slice::slice_to_vec(b),
        };
        self.write_bytes(to, b);
        true
    }

    /// Writes the bytes of `from` (see `write_bytes`).
    pub fn write_buffer(&mut self, to: u64, from: &[u8])
        requires
            old(self).wf(),
            1 <= to + from@.len() <= u64::MAX,
            !old(self).banzai_view() ==> old(self).region_for(to) is Some,
        ensures
            old(self).bytes_written(*final(self), to, from@),
    {
        self.write_bytes(to, vstd::slice::slice_to_vec(from));
    }

    /// A copy of up to `sz` bytes at `from` (see `read_bytes_option`), which
    /// must be mapped.
    pub fn read_buffer(&mut self, from: u64, sz: usize) -> (r: Vec<u8>)
        requires
            old(self).wf(),
            old(self).region_for(from) is Some,
            old(self).regions()[old(self).region_for(from)->0].offset(from) + sz <= usize::MAX,
        ensures
            r@ == old(self).bytes_from(from, sz as nat),
            *final(self) == *old(self),
    {
        match self.read_bytes_option(from, sz) {
            Some(b) => vstd::slice::slice_to_vec(b),
            None => Vec::new(),
        }
    }

    /// `write_string(to, s)` can be made: the addresses do not wrap, and
    /// unless in banzai mode the region found for `to` holds the bytes and
    /// the terminator, whose lookup after that of `to` finds a region.
    pub open spec fn string_writable(&self, to: u64, s: Seq<char>) -> bool {
        &&& 1 <= to + encode_utf8(s).len()
        &&& to + encode_utf8(s).len() + 1 <= u64::MAX
        &&& self.banzai_view() || {
            &&& self.fits(to, encode_utf8(s).len() + 1)
            &&& self.lookup_in(self.cache_after_lookup(to), (to + encode_utf8(s).len()) as u64) is Some
        }
    }

    /// `new` is `self` after `write_string(to, s)`: the UTF-8 bytes of `s`
    /// written as `write_bytes` writes them, then a zero byte after them as
    /// `write_byte` writes it.
    pub open spec fn string_written(&self, new: Maps, to: u64, s: Seq<char>) -> bool {
        exists|mid: Maps|
            {
                &&& #[trigger] self.bytes_written(mid, to, encode_utf8(s))
                &&& mid.fits((to + encode_utf8(s).len()) as u64, 1) ==> mid.stored(
                    new,
                    (to + encode_utf8(s).len()) as u64,
                    seq![0u8],
                )
                &&& !mid.fits((to + encode_utf8(s).len()) as u64, 1) ==> new.regions() == mid.regions()
                &&& mid.looked_up(new, (to + encode_utf8(s).len()) as u64)
            }
    }

    /// Writes the UTF-8 bytes of `from` at `to` (see `write_bytes`), then a
    /// zero byte after them (see `write_byte`).
    pub fn write_string(&mut self, to: u64, from: &str)
        requires
            old(self).wf(),
            old(self).string_writable(to, from@),
        ensures
            old(self).string_written(*final(self), to, from@),
            final(self).wf(),
    {
        let bs = vstd::slice::slice_to_vec(from.as_bytes());
        let n = bs.len();
        let ghost before = *old(self);
        proof {
            if !before.banzai_view() {
                before.lemma_fits_holds(to, 1);
            }
        }
        self.write_bytes(to, bs);
        let ghost mid = *self;
        proof {
            if !before.banzai_view() {
                before.lemma_fits_holds(to, (n + 1) as nat);
                let k = before.region_for(to)->0;
                if n == 0 {
                    let m = before.regions()[k];
                    assert(splice(m.bytes(), m.offset(to), encode_utf8(from@)) =~= m.bytes());
                    assert(mid.regions() =~= before.regions().insert(k, mid.regions()[k]));
                }
                before.lemma_store_keeps_wf(mid, to, encode_utf8(from@));
                let e = (to + n) as u64;
                assert(mid.regions().dom() =~= before.regions().dom());
                before.lemma_same_spans_same_lookup(mid, mid.cache().entries(), e);
            }
        }
        self.write_byte(to + n as u64, 0);
        assert(before.bytes_written(mid, to, encode_utf8(from@)));
    }

    /// Writes the UTF-16 units of `from` at `to`, in the region found for
    /// `to`, which must hold them.
    pub fn write_wide_string(&mut self, to: u64, from: &str)
        requires
            old(self).wf(),
            old(self).fits(to, 2 * utf16_encode(from@).len()),
        ensures
            old(self).stored(*final(self), to, units_le_bytes(utf16_encode(from@))),
            old(self).looked_up(*final(self), to),
            final(self).wf(),
    {
        let ghost before = *old(self);
        proof {
            before.lemma_fits_holds(to, 2 * utf16_encode(from@).len());
        }
        match self.get_mem_by_addr_mut(to) {
            Some(mem) => mem.write_wide_string(to, from),
            None => {},
        }
        proof {
            before.lemma_store_keeps_wf(*self, to, units_le_bytes(utf16_encode(from@)));
        }
    }

    /// The base of the region found for `addr`.
    pub fn get_addr_base(&self, addr: u64) -> (r: Option<u64>)
        requires
            self.wf(),
        ensures
            r is Some <==> self.region_for(addr) is Some,
            r matches Some(b) ==> b == self.regions()[self.region_for(addr)->0].base_view(),
    {
        match self.get_mem_by_addr(addr) {
            Some(mem) => Some(mem.get_base()),
            None => None,
        }
    }

    /// The keys of the regions, in increasing order.
    pub fn region_keys(&self) -> (r: Vec<usize>)
        ensures
            forall|i: int, j: int| 0 <= i < j < r@.len() ==> r@[i] < r@[j],
            forall|k: usize| self.regions().contains_key(k) <==> r@.contains(k),
    {
        slab_keys(&self.mem_slab)
    }

    /// The region with the key `k`, if there is one.
    pub fn region_by_key(&self, k: usize) -> (r: Option<&Mem64>)
        ensures
            r is Some <==> self.regions().contains_key(k),
            r matches Some(m) ==> *m == self.regions()[k],
    {
        slab_get(&self.mem_slab, k)
    }

    /// Whether a region is found for `addr`.
    pub fn is_mapped(&self, addr: u64) -> (r: bool)
        requires
            self.wf(),
        ensures
            r == self.region_for(addr) is Some,
    {
        self.get_mem_by_addr(addr).is_some()
    }

    /// Whether a region is found for `addr`.
    pub fn is_allocated(&self, addr: u64) -> (r: bool)
        requires
            self.wf(),
        ensures
            r == self.region_for(addr) is Some,
    {
        self.get_mem_by_addr(addr).is_some()
    }

    /// Looks the name of the region for `addr` up and drops it.
    pub fn show_addr_names(&self, addr: u64)
        requires
            self.wf(),
    {
        match self.get_mem_by_addr(addr) {
            Some(mem) => {
                let _ = mem.get_name();
            },
            None => {},
        }
    }

    /// The name of the region found for `addr`.
    pub fn get_addr_name(&self, addr: u64) -> (r: Option<&str>)
        requires
            self.wf(),
        ensures
            r is Some <==> self.region_for(addr) is Some,
            r matches Some(n) ==> n@ == self.regions()[self.region_for(addr)->0].name_view(),
    {
        match self.get_mem_by_addr(addr) {
            Some(mem) => Some(mem.get_name()),
            None => None,
        }
    }

    /// The name of the region found for `addr`.
    pub fn get_addr_name_mut(&mut self, addr: u64) -> (r: Option<&str>)
        requires
            old(self).wf(),
        ensures
            r is Some <==> old(self).region_for(addr) is Some,
            r matches Some(n) ==> n@ == old(self).regions()[old(self).region_for(addr)->0].name_view(),
            *final(self) == *old(self),
    {
        self.get_addr_name(addr)
    }

    /// The size of the region with the highest base at or below `addr`, if
    /// it spans `addr`.
    pub fn get_mem_size(&self, addr: u64) -> (r: Option<usize>)
        requires
            self.wf(),
        ensures
            r is Some <==> self.floor_region(addr) is Some,
            r matches Some(n) ==> n == self.regions()[self.floor_region(addr)->0].bytes().len(),
    {
        match bases_floor(&self.maps, addr) {
            Some(p) => {
                proof {
                    self.lemma_floor_base(addr, p.0);
                }
                match slab_get(&self.mem_slab, p.1) {
                    Some(region) => {
                        let start = p.0;
                        let size = region.size() as u64;
                        if addr >= start && addr < start + size {
                            Some(region.size())
                        } else {
                            None
                        }
                    },
                    None => None,
                }
            },
            None => None,
        }
    }

    /// The region with the name, which must exist.
    pub fn get_mem_ref(&self, name: &str) -> (r: &Mem64)
        requires
            self.wf(),
            self.names().contains_key(name@),
        ensures
            *r == self.regions()[self.names()[name@]],
    {
        match self.get_map_by_name(name) {
            Some(m) => m,
            None => vstd::pervasive::unreached(),
        }
    }

    /// Creates a region named `name` of `size` zero bytes at `base`; refused
    /// when a region is found for `base` or one has the name.
    pub fn create_map(&mut self, name: &str, base: u64, size: u64) -> (r: Result<&mut Mem64, String>)
        requires
            old(self).wf(),
            base + size <= u64::MAX,
            size <= usize::MAX,
        ensures
            old(self).region_for(base) is Some ==> r is Err && r->Err_0@ == "this map address 0x"@
                + hex_text(base as nat) + " already exists!"@,
            old(self).region_for(base) is None && old(self).names().contains_key(name@) ==> r is Err
                && r->Err_0@ == "this map name "@ + name@ + " already exists!"@,
            old(self).region_for(base) is None && !old(self).names().contains_key(name@) ==> r is Ok,
            r is Err ==> final(self).regions() == old(self).regions() && old(self).looked_up(
                *final(self),
                base,
            ),
            r is Ok ==> {
                &&& old(self).region_for(base) is None
                &&& !old(self).names().contains_key(name@)
                &&& r->Ok_0.name_view() == name@
                &&& r->Ok_0.base_view() == base
                &&& r->Ok_0.bottom_view() == base + size
                &&& r->Ok_0.bytes() == Seq::new(size as nat, |i: int| 0u8)
                &&& final(self).cache().entries() == old(self).cache_after_lookup(base)
                &&& final(self).cache().wf()
                &&& exists|k: usize|
                    {
                        &&& !old(self).regions().contains_key(k)
                        &&& #[trigger] final(self).regions() == old(self).regions().insert(k, *final(r->Ok_0))
                        &&& final(self).bases() == old(self).bases().insert(base, k)
                        &&& final(self).names() == old(self).names().insert(name@, k)
                    }
            },
            final(self).banzai_view() == old(self).banzai_view(),
            final(self).bits64_view() == old(self).bits64_view(),
    {
        let ghost before = *old(self);
        let found = self.get_mem_by_addr_mut(base).is_some();
        if found {
            let mut msg = String::from_str("this map address 0x");
            push_hex(&mut msg, base);
            msg.append(" already exists!");
            return Err(msg);
        }
        assert(self.regions() =~= before.regions());
        if self.exists_mapname(name) {
            let mut msg = String::from_str("this map name ");
            msg.append(name);
            msg.append(" already exists!");
            return Err(msg);
        }
        let mut mem = Mem64::new();
        mem.set_name(name);
        mem.set_base(base);
        mem.set_size(size);
        let key = slab_insert(&mut self.mem_slab, mem);
        names_insert(&mut self.name_map, String::from_str(name), key);
        self.maps.insert(base, key);
        match slab_get_mut(&mut self.mem_slab, key) {
            Some(m) => Ok(m),
            None => vstd::pervasive::unreached(),
        }
    }

    /// Removes the region with the name: it is cleared, the base index
    /// entry of address zero (the cleared region's base) is dropped, and the
    /// cache is emptied.
    pub fn free(&mut self, name: &str)
        requires
            old(self).wf(),
            old(self).names().contains_key(name@),
        ensures
            final(self).regions() == old(self).regions().remove(old(self).names()[name@]),
            final(self).bases() == old(self).bases().remove(0),
            final(self).names() == old(self).names().remove(name@),
            final(self).cache().wf(),
            forall|i: int|
                0 <= i < crate::maps::tlb::TLB_SIZE ==> !(#[trigger] final(self).cache().entries()[i]).is_valid(),
            final(self).banzai_view() == old(self).banzai_view(),
            final(self).bits64_view() == old(self).bits64_view(),
    {
        let id = match names_get(&self.name_map, name) {
            Some(id) => id,
            None => vstd::pervasive::unreached(),
        };
        match slab_get_mut(&mut self.mem_slab, id) {
            Some(mem) => {
                mem.clear();
                let b = mem.get_base();
                self.maps.remove(&b);
            },
            None => {},
        }
        slab_remove(&mut self.mem_slab, id);
        self.tlb.flush();
        names_remove(&mut self.name_map, name);
        assert(self.regions() =~= old(self).regions().remove(old(self).names()[name@]));
    }

    /// Removes the region based at `addr`, and empties the cache.
    pub fn dealloc(&mut self, addr: u64)
        requires
            old(self).wf(),
            old(self).bases().contains_key(addr),
        ensures
            final(self).regions() == old(self).regions().remove(old(self).bases()[addr]),
            final(self).bases() == old(self).bases().remove(addr),
            final(self).names() == old(self).names().remove(
                old(self).regions()[old(self).bases()[addr]].name_view(),
            ),
            final(self).wf(),
            forall|i: int|
                0 <= i < crate::maps::tlb::TLB_SIZE ==> !(#[trigger] final(self).cache().entries()[i]).is_valid(),
            final(self).banzai_view() == old(self).banzai_view(),
            final(self).bits64_view() == old(self).bits64_view(),
    {
        let ghost before = *old(self);
        let key = match self.maps.get(&addr) {
            Some(k) => *k,
            None => vstd::pervasive::unreached(),
        };
        match slab_get_mut(&mut self.mem_slab, key) {
            Some(mem) => {
                names_remove(&mut self.name_map, mem.get_name());
                mem.clear();
            },
            None => {},
        }
        slab_remove(&mut self.mem_slab, key);
        self.tlb.flush();
        self.maps.remove(&addr);
        let ghost k = before.bases()[addr];
        let ghost nm = before.regions()[k].name_view();
        assert(self.regions() =~= before.regions().remove(k));
        assert forall|j: usize| #[trigger] self.regions().contains_key(j) implies {
            let m = self.regions()[j];
            &&& self.bases().contains_key(m.base_view())
            &&& self.bases()[m.base_view()] == j
            &&& self.names().contains_key(m.name_view())
            &&& self.names()[m.name_view()] == j
            &&& m.base_view() + m.bytes().len() == m.bottom_view()
        } by {
            assert(before.regions().contains_key(j));
            assert(j != k);
        }
        assert forall|c: u64| #[trigger] self.bases().contains_key(c) implies self.regions().contains_key(
            self.bases()[c],
        ) && self.regions()[self.bases()[c]].base_view() == c by {
            assert(before.bases().contains_key(c));
        }
        assert forall|n: Seq<char>| #[trigger] self.names().contains_key(n) implies self.regions().contains_key(
            self.names()[n],
        ) && self.regions()[self.names()[n]].name_view() == n by {
            assert(before.names().contains_key(n));
        }
    }

    /// The region with the name, which must exist, to be changed in place.
    pub fn get_mem(&mut self, name: &str) -> (r: &mut Mem64)
        requires
            old(self).wf(),
            old(self).names().contains_key(name@),
        ensures
            *r == old(self).regions()[old(self).names()[name@]],
            final(self).regions() == old(self).regions().insert(old(self).names()[name@], *final(r)),
            final(self).bases() == old(self).bases(),
            final(self).names() == old(self).names(),
            final(self).cache() == old(self).cache(),
            final(self).banzai_view() == old(self).banzai_view(),
            final(self).bits64_view() == old(self).bits64_view(),
    {
        match self.get_map_by_name_mut(name) {
            Some(m) => m,
            None => vstd::pervasive::unreached(),
        }
    }

    /// The region with the name, if any, to be changed in place.
    pub fn get_mem2(&mut self, name: &str) -> (r: Option<&mut Mem64>)
        requires
            old(self).wf(),
        ensures
            r is Some <==> old(self).names().contains_key(name@),
            r is None ==> final(self).regions() == old(self).regions(),
            r is Some ==> *r->0 == old(self).regions()[old(self).names()[name@]]
                && final(self).regions() == old(self).regions().insert(
                old(self).names()[name@],
                *final(r->0),
            ),
            final(self).bases() == old(self).bases(),
            final(self).names() == old(self).names(),
            final(self).cache() == old(self).cache(),
            final(self).banzai_view() == old(self).banzai_view(),
            final(self).bits64_view() == old(self).bits64_view(),
    {
        self.get_map_by_name_mut(name)
    }

    /// The little endian 128 bit value at `addr` (as `read_128bits_le`).
    pub fn read_128bits_be(&self, addr: u64) -> (r: Option<u128>)
        requires
            self.wf(),
            addr + 15 <= u64::MAX,
            self.region_for(addr) is Some ==> self.fits(addr, 16),
            self.region_for(addr) is None ==> self.banzai_view(),
        ensures
            r is Some <==> self.region_for(addr) is Some,
            r matches Some(v) ==> v == self.value_at(addr, 16),
    {
        self.read_128bits_le(addr)
    }

    /// The zero terminated UTF-16 string at `addr` in the region found for
    /// it (see `Mem64::read_wide_string`); empty for address zero.
    pub fn read_wide_string(&self, addr: u64) -> (r: String)
        requires
            self.wf(),
            addr != 0 ==> self.region_for(addr) is Some,
            addr != 0 ==> self.regions()[self.region_for(addr)->0].wide_string_readable(addr),
            addr != 0 ==> valid_utf16(self.regions()[self.region_for(addr)->0].wide_string_at(addr)),
        ensures
            addr == 0 ==> r@ == Seq::<char>::empty(),
            addr != 0 ==> r@ == utf16_decode(self.regions()[self.region_for(addr)->0].wide_string_at(addr)),
    {
        if addr == 0 {
            return String::new();
        }
        match self.get_mem_by_addr(addr) {
            Some(mem) => mem.read_wide_string(addr),
            None => vstd::pervasive::unreached(),
        }
    }

    /// Whether a region is found for some address from `addr` to
    /// `addr + sz` (excluded).
    pub fn overlaps(&self, addr: u64, sz: u64) -> (r: bool)
        requires
            self.wf(),
            addr + sz <= u64::MAX,
        ensures
            r == exists|a: u64| addr <= a < addr + sz && #[trigger] self.region_for(a) is Some,
    {
        let mut a = addr;
        while a < addr + sz
            invariant
                self.wf(),
                addr + sz <= u64::MAX,
                addr <= a <= addr + sz,
                forall|b: u64| addr <= b < a ==> #[trigger] self.region_for(b) is None,
            decreases addr + sz - a,
        {
            if self.is_mapped(a) {
                return true;
            }
            a = a + 1;
        }
        false
    }

    /// Every byte outside the printable ASCII range (`!` to `~`) replaced by
    /// a dot.
    pub fn filter_replace_bytes(&self, s: &[u8]) -> (r: Vec<u8>)
        ensures
            r@ == Seq::new(s@.len(), |i: int| if is_printable(s@[i]) { s@[i] } else { 0x2eu8 }),
    {
        let mut sanitized: Vec<u8> = Vec::new();
        let mut i: usize = 0;
        while i < s.len()
            invariant
                i <= s@.len(),
                sanitized@ == Seq::new(i as nat, |j: int| if is_printable(s@[j]) { s@[j] } else { 0x2eu8 }),
            decreases s@.len() - i,
        {
            let b = s[i];
            if 0x21 <= b && b <= 0x7e {
                sanitized.push(b);
            } else {
                sanitized.push(0x2e);
            }
            i = i + 1;
            assert(sanitized@ =~= Seq::new(i as nat, |j: int| if is_printable(s@[j]) { s@[j] } else { 0x2eu8 }));
        }
        sanitized
    }

    /// The UTF-8 bytes of `s`, each printable ASCII byte (`!` to `~`) as its
    /// character and every other byte as a dot.
    pub fn filter_replace_string(&self, s: &str) -> (r: String)
        ensures
            r@ == Seq::new(
                encode_utf8(s@).len(),
                |i: int| if is_printable(encode_utf8(s@)[i]) { encode_utf8(s@)[i] as char } else { '.' },
            ),
    {
        let sb = s.as_bytes();
        let mut dst = String::new();
        let mut i: usize = 0;
        while i < sb.len()
            invariant
                i <= sb@.len(),
                sb@ == encode_utf8(s@),
                dst@ == Seq::new(i as nat, |j: int| if is_printable(sb@[j]) { sb@[j] as char } else { '.' }),
            decreases sb@.len() - i,
        {
            let b = sb[i];
            if 0x21 <= b && b <= 0x7e {
                push_char(&mut dst, b as char);
            } else {
                push_char(&mut dst, '.');
            }
            i = i + 1;
            assert(dst@ =~= Seq::new(i as nat, |j: int| if is_printable(sb@[j]) { sb@[j] as char } else { '.' }));
        }
        dst
    }

    /// The total number of bytes of the regions.
    pub fn size(&self) -> (r: usize)
        requires
            self.total_size() <= usize::MAX,
        ensures
            r == self.total_size(),
    {
        let keys = slab_keys(&self.mem_slab);
        let mut sz: usize = 0;
        let mut i: usize = 0;
        proof {
            lemma_no_key_between(keys@, self.regions(), 0);
            if keys@.len() == 0 {
                self.lemma_size_gap(0, usize::MAX as nat + 1);
            } else {
                self.lemma_size_gap(0, keys@[0] as nat);
            }
        }
        while i < keys.len()
            invariant
                i <= keys@.len(),
                forall|a: int, b: int| 0 <= a < b < keys@.len() ==> keys@[a] < keys@[b],
                forall|k: usize| self.regions().contains_key(k) <==> keys@.contains(k),
                self.total_size() <= usize::MAX,
                sz == self.size_below(if i == 0 { 0 } else { keys@[i - 1] as nat + 1 }),
                sz <= self.size_below(usize::MAX as nat + 1),
            decreases keys@.len() - i,
        {
            let k = keys[i];
            let ghost lo: nat = if i == 0 { 0 } else { keys@[i - 1] as nat + 1 };
            proof {
                lemma_no_key_between(keys@, self.regions(), i as int);
                self.lemma_size_gap(lo, k as nat);
                assert(keys@.contains(k));
                self.lemma_size_monotone(k as nat + 1, usize::MAX as nat + 1);
            }
            let n = match slab_get(&self.mem_slab, k) {
                Some(mem) => mem.size(),
                None => 0,
            };
            sz = sz + n;
            i = i + 1;
        }
        proof {
            let lo: nat = if keys@.len() == 0 { 0 } else { keys@[keys@.len() - 1] as nat + 1 };
            lemma_no_key_between(keys@, self.regions(), keys@.len() as int);
            self.lemma_size_gap(lo, usize::MAX as nat + 1);
        }
        sz
    }

    /// Whether the regions are consistent: those with different names span
    /// no common address, and each one's bytes reach its bottom.
    pub fn mem_test(&self) -> (r: bool)
        requires
            forall|k: usize| #[trigger]
                self.regions().contains_key(k) ==> self.regions()[k].base_view()
                    + self.regions()[k].bytes().len() <= u64::MAX,
        ensures
            r == self.consistent(),
    {
        let keys = slab_keys(&self.mem_slab);
        let mut i: usize = 0;
        while i < keys.len()
            invariant
                i <= keys@.len(),
                forall|k: usize| self.regions().contains_key(k) <==> keys@.contains(k),
                forall|k: usize| #[trigger]
                    self.regions().contains_key(k) ==> self.regions()[k].base_view()
                        + self.regions()[k].bytes().len() <= u64::MAX,
                forall|a: int| 0 <= a < i ==> #[trigger] self.row_ok(keys@[a]),
            decreases keys@.len() - i,
        {
            let k1 = keys[i];
            assert(keys@.contains(k1));
            let mem1 = match slab_get(&self.mem_slab, k1) {
                Some(m) => m,
                None => vstd::pervasive::unreached(),
            };
            let mut j: usize = 0;
            while j < keys.len()
                invariant
                    j <= keys@.len(),
                    *mem1 == self.regions()[k1],
                    self.regions().contains_key(k1),
                    forall|k: usize| self.regions().contains_key(k) <==> keys@.contains(k),
                    forall|b: int| 0 <= b < j ==> #[trigger] self.pair_ok(k1, keys@[b]),
                decreases keys@.len() - j,
            {
                let k2 = keys[j];
                assert(keys@.contains(k2));
                let mem2 = match slab_get(&self.mem_slab, k2) {
                    Some(m) => m,
                    None => vstd::pervasive::unreached(),
                };
                if !same_text(mem1.get_name(), mem2.get_name()) {
                    let b1 = mem1.get_base();
                    let t1 = mem1.get_bottom();
                    let b2 = mem2.get_base();
                    let t2 = mem2.get_bottom();
                    let lo = if b1 < b2 {
                        b2
                    } else {
                        b1
                    };
                    if lo < t1 && lo < t2 {
                        assert(spans(*mem1, lo) && spans(*mem2, lo));
                        assert(!self.pair_ok(k1, k2));
                        assert(!self.row_ok(k1));
                        return false;
                    }
                    assert forall|x: u64| !(spans(*mem1, x) && spans(*mem2, x)) by {}
                }
                assert(self.pair_ok(k1, k2));
                j = j + 1;
            }
            proof {
                assert forall|k2: usize| #[trigger] self.pair_ok(k1, k2) by {
                    if self.regions().contains_key(k2) {
                        assert(keys@.contains(k2));
                        let b = choose|b: int| 0 <= b < keys@.len() && keys@[b] == k2;
                        assert(self.pair_ok(k1, keys@[b]));
                    }
                }
            }
            if mem1.get_base() + (mem1.size() as u64) != mem1.get_bottom() {
                assert(!self.row_ok(k1));
                return false;
            }
            assert(self.row_ok(k1));
            i = i + 1;
        }
        proof {
            assert forall|k: usize| self.regions().contains_key(k) implies #[trigger] self.row_ok(k) by {
                assert(keys@.contains(k));
                let a = choose|a: int| 0 <= a < keys@.len() && keys@[a] == k;
                assert(self.row_ok(keys@[a]));
            }
        }
        true
    }

    /// The base of the first region, in key order, whose name ends with
    /// `.pe`.
    pub fn get_base(&self) -> (r: Option<u64>)
        ensures
            r is Some <==> self.first_pe_below(usize::MAX as nat + 1) is Some,
            r matches Some(b) ==> b == self.regions()[self.first_pe_below(usize::MAX as nat + 1)->0].base_view(),
    {
        let keys = slab_keys(&self.mem_slab);
        let mut i: usize = 0;
        proof {
            lemma_no_key_between(keys@, self.regions(), 0);
            if keys@.len() == 0 {
                self.lemma_pe_gap(0, usize::MAX as nat + 1);
            } else {
                self.lemma_pe_gap(0, keys@[0] as nat);
            }
        }
        while i < keys.len()
            invariant
                i <= keys@.len(),
                forall|a: int, b: int| 0 <= a < b < keys@.len() ==> keys@[a] < keys@[b],
                forall|k: usize| self.regions().contains_key(k) <==> keys@.contains(k),
                self.first_pe_below(if i == 0 { 0 } else { keys@[i - 1] as nat + 1 }) is None,
            decreases keys@.len() - i,
        {
            let k = keys[i];
            let ghost lo: nat = if i == 0 { 0 } else { keys@[i - 1] as nat + 1 };
            proof {
                lemma_no_key_between(keys@, self.regions(), i as int);
                self.lemma_pe_gap(lo, k as nat);
                assert(keys@.contains(k));
            }
            let mem = match slab_get(&self.mem_slab, k) {
                Some(m) => m,
                None => vstd::pervasive::unreached(),
            };
            if name_ends_with_pe(mem.get_name()) {
                proof {
                    self.lemma_pe_stays(k as nat + 1, usize::MAX as nat + 1);
                }
                return Some(mem.get_base());
            }
            i = i + 1;
        }
        proof {
            let lo: nat = if keys@.len() == 0 { 0 } else { keys@[keys@.len() - 1] as nat + 1 };
            lemma_no_key_between(keys@, self.regions(), keys@.len() as int);
            self.lemma_pe_gap(lo, usize::MAX as nat + 1);
        }
        None
    }

    /// `addr` rounded up to a multiple of `align`, a power of two.
    fn align_up(&self, addr: u64, align: u64) -> (r: u64)
        requires
            align == 0x1000,
            addr + 0xfff <= u64::MAX,
        ensures
            r == page_up(addr),
    {
        proof {
            lemma_page_mask();
        }
        (addr + (align - 1)) & !(align - 1)
    }

    /// `addr` rounded down to a multiple of `align`, a power of two.
    fn align_down(&self, addr: u64, align: u64) -> (r: u64)
        requires
            align == 0x1000,
        ensures
            r == addr & 0xffff_ffff_ffff_f000,
    {
        proof {
            lemma_page_mask();
        }
        addr & !(align - 1)
    }

    /// Searches room for `sz` bytes (at most 0xffffff, rounded up to pages)
    /// from `bottom` (rounded up) to `top`: the first page aligned gap before
    /// a region, in base order, larger than the size, else the room left up
    /// to the top (see `alloc_scan`). Where no two regions share an address,
    /// every region starts on a page and none runs over the rounded bottom,
    /// the room found overlaps no region, for a library as for any other
    /// allocation.
    pub fn _alloc(&self, sz: u64, bottom: u64, top: u64, lib: bool) -> (r: Option<u64>)
        requires
            self.wf(),
            bottom + 0xfff <= u64::MAX,
            self.alloc_scan(None, page_up(bottom), Self::alloc_size(sz), bottom, top, lib) is Some,
        ensures
            r == self.alloc_scan(None, page_up(bottom), Self::alloc_size(sz), bottom, top, lib)->0,
            r matches Some(a) ==> self.room_found(a, Self::alloc_size(sz), bottom, top),
            r matches Some(a) ==> (self.regions_apart() && self.bases_aligned() && self.ends_by(
                None,
                page_up(bottom),
            ) ==> self.room_free(a, Self::alloc_size(sz))),
    {
        let mut prev: u64 = self.align_up(bottom, 0x1000);
        let mut size = sz;
        if size > 0xffffff {
            size = 0xffffff;
        }
        size = self.align_up(size, 0x1000);
        assert(size == Self::alloc_size(sz));
        let ghost goal = self.alloc_scan(None, page_up(bottom), size, bottom, top, lib);
        let mut after: Option<u64> = None;
        proof {
            lemma_page_up_facts(bottom);
            if goal matches Some(Some(_)) {
                self.lemma_alloc_scan_found(None, page_up(bottom), size, bottom, top, lib);
                if self.regions_apart() && self.bases_aligned() && self.ends_by(None, page_up(bottom)) {
                    self.lemma_alloc_scan_apart(None, page_up(bottom), size, bottom, top, lib);
                }
            }
        }
        loop
            invariant_except_break
                self.wf(),
                goal is Some,
                goal matches Some(Some(a)) ==> self.room_found(a, size, bottom, top),
                goal matches Some(Some(a)) ==> (self.regions_apart() && self.bases_aligned()
                    && self.ends_by(None, page_up(bottom)) ==> self.room_free(a, size)),
                goal == self.alloc_scan(None, page_up(bottom), Self::alloc_size(sz), bottom, top, lib),
                size == Self::alloc_size(sz),
                self.alloc_scan(after, prev, size, bottom, top, lib) == goal,
            ensures
                self.alloc_scan(after, prev, size, bottom, top, lib) == goal,
                goal is Some,
                goal matches Some(Some(a)) ==> self.room_found(a, size, bottom, top),
                goal matches Some(Some(a)) ==> (self.regions_apart() && self.bases_aligned()
                    && self.ends_by(None, page_up(bottom)) ==> self.room_free(a, size)),
                goal == self.alloc_scan(None, page_up(bottom), Self::alloc_size(sz), bottom, top, lib),
                size == Self::alloc_size(sz),
                !has_next(self.bases(), after),
            decreases (match after {
                Some(a) => u64::MAX - a,
                None => u64::MAX + 1,
            }),
        {
            let ghost prior = after;
            let ghost prior_prev = prev;
            let (b, key) = match bases_next(&self.maps, after) {
                None => {
                    break;
                },
                Some(p) => p,
            };
            proof {
                self.lemma_next_base(after, b);
            }
            let mem = match slab_get(&self.mem_slab, key) {
                Some(m) => m,
                None => vstd::pervasive::unreached(),
            };
            let base = mem.get_base();
            after = Some(b);
            if lib && base < bottom {
                continue;
            }
            if prev > base {
                continue;
            }
            if base - prev > size {
                assert(self.alloc_scan(prior, prior_prev, size, bottom, top, lib) == Some(Some(prev)));
                return Some(prev);
            }
            prev = self.align_up(mem.get_bottom(), 0x1000);
        }
        if top < prev {
            prev = self.align_up(top, 0x1000);
        }
        if top - prev > size {
            Some(prev)
        } else {
            None
        }
    }

    /// The addresses, in increasing order, at which the bytes lie in the
    /// first region (in key order) with the name; none when no region has
    /// it.
    pub fn search_bytes(&self, bkw: Vec<u8>, map_name: &str) -> (r: Vec<u64>)
        requires
            self.wf(),
        ensures
            r@ == match self.first_named_below(usize::MAX as nat + 1, map_name@) {
                Some(k) => match_addrs(
                    self.regions()[k],
                    self.regions()[k].base_view(),
                    self.regions()[k].bottom_view(),
                    bkw@,
                ),
                None => Seq::empty(),
            },
    {
        let keys = slab_keys(&self.mem_slab);
        let mut addrs: Vec<u64> = Vec::new();
        let mut i: usize = 0;
        proof {
            lemma_no_key_between(keys@, self.regions(), 0);
            if keys@.len() == 0 {
                self.lemma_named_gap(0, usize::MAX as nat + 1, map_name@);
            } else {
                self.lemma_named_gap(0, keys@[0] as nat, map_name@);
            }
        }
        while i < keys.len()
            invariant
                self.wf(),
                i <= keys@.len(),
                forall|a: int, b: int| 0 <= a < b < keys@.len() ==> keys@[a] < keys@[b],
                forall|k: usize| self.regions().contains_key(k) <==> keys@.contains(k),
                self.first_named_below(if i == 0 { 0 } else { keys@[i - 1] as nat + 1 }, map_name@) is None,
                addrs@ == Seq::<u64>::empty(),
            decreases keys@.len() - i,
        {
            let k = keys[i];
            let ghost lo: nat = if i == 0 { 0 } else { keys@[i - 1] as nat + 1 };
            proof {
                lemma_no_key_between(keys@, self.regions(), i as int);
                self.lemma_named_gap(lo, k as nat, map_name@);
                assert(keys@.contains(k));
            }
            let mem = match slab_get(&self.mem_slab, k) {
                Some(m) => m,
                None => vstd::pervasive::unreached(),
            };
            if same_text(mem.get_name(), map_name) {
                proof {
                    self.lemma_named_stays(k as nat + 1, usize::MAX as nat + 1, map_name@);
                }
                let bottom = mem.get_bottom();
                let mut addr = mem.get_base();
                while addr < bottom
                    invariant
                        *mem == self.regions()[k],
                        mem.base_view() + mem.bytes().len() == mem.bottom_view(),
                        bottom == mem.bottom_view(),
                        mem.base_view() <= addr <= bottom,
                        addrs@ == match_addrs(*mem, mem.base_view(), addr, bkw@),
                    decreases bottom - addr,
                {
                    let mut c: usize = 0;
                    let mut j: usize = 0;
                    while j < bkw.len()
                        invariant
                            j <= bkw@.len(),
                            c == j,
                            addr < bottom,
                            addr + j <= bottom,
                            *mem == self.regions()[k],
                            mem.base_view() + mem.bytes().len() == mem.bottom_view(),
                            bottom == mem.bottom_view(),
                            mem.base_view() <= addr,
                            forall|t: int| 0 <= t < j ==> #[trigger] mem.bytes()[mem.offset(addr) + t] == bkw@[t],
                        ensures
                            c <= bkw@.len(),
                            (c == bkw@.len()) == matches_at(*mem, addr, bkw@),
                        decreases bkw@.len() - j,
                    {
                        if addr + j as u64 >= bottom {
                            break;
                        }
                        let b = mem.read_byte(addr + j as u64);
                        assert(mem.offset((addr + j) as u64) == mem.offset(addr) + j);
                        if b == bkw[j] {
                            c = c + 1;
                        } else {
                            assert(mem.bytes()[mem.offset(addr) + j] != bkw@[j as int]);
                            break;
                        }
                        j = j + 1;
                    }
                    if c == bkw.len() {
                        addrs.push(addr);
                    }
                    addr = addr + 1;
                    assert(addrs@ =~= match_addrs(*mem, mem.base_view(), addr, bkw@));
                }
                return addrs;
            }
            i = i + 1;
        }
        proof {
            let lo: nat = if keys@.len() == 0 { 0 } else { keys@[keys@.len() - 1] as nat + 1 };
            lemma_no_key_between(keys@, self.regions(), keys@.len() as int);
            self.lemma_named_gap(lo, usize::MAX as nat + 1, map_name@);
        }
        addrs
    }

    /// Whether a scan for the string at `addr` stops before the end of the
    /// address space (see `scan_ends`), as `read_string` needs.
    pub fn string_ends(&self, addr: u64) -> (r: bool)
        requires
            self.wf(),
        ensures
            r == self.scan_ends(addr),
    {
        let mut a = addr;
        loop
            invariant
                self.wf(),
                addr <= a,
                self.scan_ends(addr) == self.scan_ends(a),
            decreases u64::MAX - a,
        {
            match self.read_byte(a) {
                None => {
                    return true;
                },
                Some(b) => {
                    if b == 0 {
                        return true;
                    }
                    if a == u64::MAX {
                        return false;
                    }
                    a = a + 1;
                },
            }
        }
    }

    /// The zero terminated string at `addr`, one character per byte,
    /// stopping at the first unmapped address; empty for address zero.
    pub fn read_string(&self, addr: u64) -> (r: String)
        requires
            self.wf(),
            addr != 0 ==> self.scan_ends(addr),
        ensures
            addr == 0 ==> r@ == Seq::<char>::empty(),
            addr != 0 ==> r@ == self.scan_chars(addr),
    {
        if addr == 0 {
            return String::new();
        }
        let mut s = String::new();
        let mut a: u64 = addr;
        loop
            invariant_except_break
                self.wf(),
                self.scan_ends(a),
                s@ + self.scan_chars(a) == self.scan_chars(addr),
            ensures
                s@ == self.scan_chars(addr),
            decreases u64::MAX - a,
        {
            let b = match self.read_byte(a) {
                Some(v) => v,
                None => {
                    assert(s@ =~= self.scan_chars(addr));
                    break;
                },
            };
            if b == 0 {
                assert(s@ =~= self.scan_chars(addr));
                break;
            }
            push_char(&mut s, b as char);
            assert(s@ + self.scan_chars((a + 1) as u64) =~= self.scan_chars(addr));
            a = a + 1;
        }
        s
    }

    /// The addresses, in increasing order, at which the UTF-8 bytes of `kw`
    /// lie in the region with the name; `None` when there is no such region
    /// or no such address.
    pub fn search_string(&self, kw: &str, map_name: &str) -> (r: Option<Vec<u64>>)
        requires
            self.wf(),
            self.names().contains_key(map_name@) ==> {
                let m = self.regions()[self.names()[map_name@]];
                forall|a: u64| m.base_view() <= a < m.bottom_view() ==> #[trigger] scan_stays(m, a, encode_utf8(kw@))
            },
        ensures
            !self.names().contains_key(map_name@) ==> r is None,
            self.names().contains_key(map_name@) ==> {
                let m = self.regions()[self.names()[map_name@]];
                let found = match_addrs(m, m.base_view(), m.bottom_view(), encode_utf8(kw@));
                &&& r is None <==> found.len() == 0
                &&& r matches Some(v) ==> v@ == found
            },
    {
        let mem = match self.get_map_by_name(map_name) {
            Some(m) => m,
            None => {
                return None;
            },
        };
        let bkw = kw.as_bytes();
        let ghost k = self.names()[map_name@];
        let mut found: Vec<u64> = Vec::new();
        let bottom = mem.get_bottom();
        let mut addr = mem.get_base();
        while addr < bottom
            invariant
                *mem == self.regions()[k],
                self.regions().contains_key(k),
                mem.base_view() + mem.bytes().len() == mem.bottom_view(),
                bottom == mem.bottom_view(),
                mem.base_view() <= addr <= bottom,
                bkw@ == encode_utf8(kw@),
                forall|a: u64| mem.base_view() <= a < mem.bottom_view() ==> #[trigger] scan_stays(*mem, a, bkw@),
                found@ == match_addrs(*mem, mem.base_view(), addr, bkw@),
            decreases bottom - addr,
        {
            let mut c: usize = 0;
            let mut i: usize = 0;
            assert(scan_stays(*mem, addr, bkw@));
            while i < bkw.len()
                invariant
                    i <= bkw@.len(),
                    c == i,
                    addr < bottom,
                    addr + i <= bottom,
                    *mem == self.regions()[k],
                    mem.base_view() + mem.bytes().len() == mem.bottom_view(),
                    bottom == mem.bottom_view(),
                    mem.base_view() <= addr,
                    scan_stays(*mem, addr, bkw@),
                    forall|t: int| 0 <= t < i ==> #[trigger] mem.bytes()[mem.offset(addr) + t] == bkw@[t],
                ensures
                    c <= bkw@.len(),
                    (c == bkw@.len()) == matches_at(*mem, addr, bkw@),
                decreases bkw@.len() - i,
            {
                assert(prefix_matches(*mem, addr, bkw@, i as int));
                assert(addr + i < bottom);
                let b = mem.read_byte(addr + i as u64);
                assert(mem.offset((addr + i) as u64) == mem.offset(addr) + i);
                if b == bkw[i] {
                    c = c + 1;
                } else {
                    assert(mem.bytes()[mem.offset(addr) + i] != bkw@[i as int]);
                    break;
                }
                i = i + 1;
            }
            if c == bkw.len() {
                found.push(addr);
            }
            addr = addr + 1;
            assert(found@ =~= match_addrs(*mem, mem.base_view(), addr, bkw@));
        }
        if found.len() > 0 {
            Some(found)
        } else {
            None
        }
    }

    /// The addresses at which `pat` lies, region by region over the keys
    /// below `n` in increasing order, in the regions whose base is below
    /// 0x7000000; increasing within each region.
    pub open spec fn low_string_hits(&self, n: nat, pat: Seq<u8>) -> Seq<u64>
        decreases n,
    {
        if n == 0 {
            Seq::empty()
        } else {
            let k = (n - 1) as usize;
            self.low_string_hits((n - 1) as nat, pat) + if self.regions().contains_key(k)
                && self.regions()[k].base_view() < 0x7000000 {
                let m = self.regions()[k];
                match_addrs(m, m.base_view(), m.bottom_view(), pat)
            } else {
                Seq::empty()
            }
        }
    }

    /// Keys with no region add no address.
    pub proof fn lemma_low_string_hits_gap(&self, a: nat, b: nat, pat: Seq<u8>)
        requires
            a <= b <= usize::MAX as nat + 1,
            forall|k: usize| a <= k < b ==> !#[trigger] self.regions().contains_key(k),
        ensures
            self.low_string_hits(b, pat) == self.low_string_hits(a, pat),
        decreases b - a,
    {
        if a < b {
            self.lemma_low_string_hits_gap(a, (b - 1) as nat, pat);
            assert(!self.regions().contains_key((b - 1) as usize));
            assert(self.low_string_hits(b, pat) =~= self.low_string_hits((b - 1) as nat, pat));
        }
    }

    /// Every address of the region can start a scan for `pat` that stays
    /// inside it (see `scan_stays`).
    pub open spec fn scans_stay(m: Mem64, pat: Seq<u8>) -> bool {
        forall|a: u64| m.base_view() <= a < m.bottom_view() ==> #[trigger] scan_stays(m, a, pat)
    }

    /// The addresses at which the UTF-8 bytes of `kw` lie, in every region
    /// whose base is below 0x7000000, region by region in key order and in
    /// increasing order within each region (see `search_string`).
    pub fn search_string_in_all(&self, kw: String) -> (r: Vec<u64>)
        requires
            self.wf(),
            forall|k: usize|
                #[trigger] self.regions().contains_key(k) && self.regions()[k].base_view() < 0x7000000
                    ==> Self::scans_stay(self.regions()[k], encode_utf8(kw@)),
        ensures
            r@ == self.low_string_hits(usize::MAX as nat + 1, encode_utf8(kw@)),
    {
        let keys = slab_keys(&self.mem_slab);
        let ghost pat = encode_utf8(kw@);
        let mut all: Vec<u64> = Vec::new();
        let mut i: usize = 0;
        proof {
            lemma_no_key_between(keys@, self.regions(), 0);
            if keys@.len() == 0 {
                self.lemma_low_string_hits_gap(0, usize::MAX as nat + 1, pat);
            } else {
                self.lemma_low_string_hits_gap(0, keys@[0] as nat, pat);
            }
        }
        while i < keys.len()
            invariant
                self.wf(),
                i <= keys@.len(),
                pat == encode_utf8(kw@),
                forall|k: usize|
                    #[trigger] self.regions().contains_key(k) && self.regions()[k].base_view() < 0x7000000
                        ==> Self::scans_stay(self.regions()[k], pat),
                forall|a: int, b: int| 0 <= a < b < keys@.len() ==> keys@[a] < keys@[b],
                forall|k: usize| self.regions().contains_key(k) <==> keys@.contains(k),
                all@ == self.low_string_hits(if i == 0 { 0 } else { keys@[i - 1] as nat + 1 }, pat),
            decreases keys@.len() - i,
        {
            let k = keys[i];
            let ghost lo: nat = if i == 0 { 0 } else { keys@[i - 1] as nat + 1 };
            proof {
                lemma_no_key_between(keys@, self.regions(), i as int);
                self.lemma_low_string_hits_gap(lo, k as nat, pat);
                assert(keys@.contains(k));
            }
            let mem = match slab_get(&self.mem_slab, k) {
                Some(m) => m,
                None => vstd::pervasive::unreached(),
            };
            let ghost before = all@;
            if mem.get_base() < 0x7000000 {
                let name = mem.get_name();
                assert(self.names()[name@] == k);
                match self.search_string(kw.as_str(), name) {
                    Some(v) => {
                        let mut v = v;
                        all.append(&mut v);
                    },
                    None => {},
                }
                assert(all@ =~= before + match_addrs(*mem, mem.base_view(), mem.bottom_view(), pat));
            }
            assert(all@ =~= self.low_string_hits(k as nat + 1, pat));
            i = i + 1;
        }
        proof {
            let lo: nat = if keys@.len() == 0 { 0 } else { keys@[keys@.len() - 1] as nat + 1 };
            lemma_no_key_between(keys@, self.regions(), keys@.len() as int);
            self.lemma_low_string_hits_gap(lo, usize::MAX as nat + 1, pat);
        }
        all
    }

    /// Up to `sz` bytes at `addr` (see `read_bytes`), each as two lower
    /// case hexadecimal digits and a space.
    pub fn read_string_of_bytes(&mut self, addr: u64, sz: usize) -> (r: String)
        requires
            old(self).wf(),
            old(self).region_for(addr) is Some,
            old(self).regions()[old(self).region_for(addr)->0].offset(addr) + sz <= usize::MAX,
        ensures
            r@ == bytes_hex_text(old(self).bytes_from(addr, sz as nat)),
            final(self).regions() == old(self).regions(),
            old(self).looked_up(*final(self), addr),
            final(self).wf(),
    {
        let bytes = self.read_bytes(addr, sz);
        let mut s = String::new();
        let mut i: usize = 0;
        while i < bytes.len()
            invariant
                i <= bytes@.len(),
                s@ == bytes_hex_text(bytes@.take(i as int)),
            decreases bytes@.len() - i,
        {
            let b = bytes[i];
            push_char(&mut s, hex_digit_char((b / 16) as u64));
            push_char(&mut s, hex_digit_char((b % 16) as u64));
            push_char(&mut s, ' ');
            proof {
                assert(bytes@.take((i + 1) as int).drop_last() =~= bytes@.take(i as int));
            }
            i = i + 1;
        }
        assert(bytes@.take(bytes@.len() as int) =~= bytes@);
        s
    }

    /// The number of nonzero words before a zero word at `ptr`, scanning at
    /// most 500000 words; zero when no zero word comes.
    pub fn sizeof_wide(&self, unicode_str_ptr: u64) -> (r: usize)
        requires
            self.wf(),
            unicode_str_ptr + 1_000_000 <= u64::MAX,
            self.wide_scan_ok(unicode_str_ptr, 500_000),
        ensures
            r == match self.wide_count(unicode_str_ptr, 500_000) {
                Some(n) => n,
                None => 0,
            },
    {
        let mut counter: usize = 0;
        let mut i: usize = 0;
        while i < 1_000_000
            invariant
                self.wf(),
                unicode_str_ptr + 1_000_000 <= u64::MAX,
                i % 2 == 0,
                i <= 1_000_000,
                counter == i / 2,
                self.wide_scan_ok((unicode_str_ptr + i) as u64, (500_000 - i / 2) as nat),
                self.wide_count(unicode_str_ptr, 500_000) == match self.wide_count(
                    (unicode_str_ptr + i) as u64,
                    (500_000 - i / 2) as nat,
                ) {
                    Some(n) => Some((n + counter) as nat),
                    None => None,
                },
            decreases 1_000_000 - i,
        {
            let a = unicode_str_ptr + i as u64;
            let b = match self.read_word(a) {
                Some(v) => v,
                None => vstd::pervasive::unreached(),
            };
            if b == 0 {
                return counter;
            }
            counter = counter + 1;
            i = i + 2;
        }
        0
    }

    /// The bytes that a text of space separated hexadecimal bytes writes,
    /// up to the first piece that is no byte.
    pub fn spaced_bytes_to_bytes(&self, sbs: &str) -> (r: Vec<u8>)
        ensures
            r@ == spaced_bytes(encode_utf8(sbs@)),
    {
        let b = sbs.as_bytes();
        let ghost all = b@;
        let mut bytes: Vec<u8> = Vec::new();
        let mut start: usize = 0;
        assert(b@.skip(0) =~= b@);
        loop
            invariant_except_break
                start <= b@.len(),
                b@ == all,
                all == encode_utf8(sbs@),
                bytes@ + parse_pieces(pieces(b@.skip(start as int))) == spaced_bytes(all),
            ensures
                bytes@ == spaced_bytes(all),
                all == encode_utf8(sbs@),
            decreases b@.len() - start,
        {
            let mut end = start;
            while end < b.len() && b[end] != 0x20
                invariant
                    start <= end <= b@.len(),
                    forall|t: int| start <= t < end ==> b@[t] != 0x20,
                decreases b@.len() - end,
            {
                end = end + 1;
            }
            let ghost rest = b@.skip(start as int);
            proof {
                assert forall|t: int| 0 <= t < end - start implies rest[t] != 0x20 by {
                    assert(rest[t] == b@[start + t]);
                }
                lemma_pieces_prefix(rest, end - start);
                assert(rest.take(end - start) =~= b@.subrange(start as int, end as int));
            }
            let piece = parse_hex_piece(b, start, end);
            if end == b.len() {
                proof {
                    assert(rest.skip(end - start) =~= Seq::<u8>::empty());
                    assert(pieces(rest) =~= seq![b@.subrange(start as int, end as int)]);
                    assert(pieces(rest).drop_first() =~= Seq::<Seq<u8>>::empty());
                    reveal_with_fuel(parse_pieces, 2);
                }
                match piece {
                    Some(v) => {
                        bytes.push(v);
                    },
                    None => {},
                }
                assert(bytes@ =~= spaced_bytes(all));
                break;
            }
            proof {
                let after = rest.skip(end - start);
                assert(after[0] == 0x20);
                assert(after.drop_first() =~= b@.skip(end + 1));
                lemma_pieces_nonempty(after.drop_first());
                assert(pieces(after) == seq![Seq::<u8>::empty()] + pieces(after.drop_first()));
                assert(pieces(rest) =~= seq![b@.subrange(start as int, end as int)] + pieces(b@.skip(end + 1)));
                assert(pieces(rest).drop_first() =~= pieces(b@.skip(end + 1)));
            }
            match piece {
                Some(v) => {
                    bytes.push(v);
                    assert(bytes@ + parse_pieces(pieces(b@.skip(end + 1))) =~= spaced_bytes(all));
                },
                None => {
                    assert(bytes@ =~= spaced_bytes(all));
                    break;
                },
            }
            start = end + 1;
        }
        bytes
    }

    /// Writes the bytes of a text of space separated hexadecimal bytes from
    /// `addr` on, one by one, and stops at the first one that no region
    /// holds (tolerated only in banzai mode): `false` then, else `true`.
    pub fn write_spaced_bytes(&mut self, addr: u64, sbs: &str) -> (r: bool)
        requires
            old(self).wf(),
            spaced_bytes(encode_utf8(sbs@)).len() == pieces(encode_utf8(sbs@)).len(),
            addr + pieces(encode_utf8(sbs@)).len() <= u64::MAX,
            !old(self).banzai_view() ==> forall|i: int|
                0 <= i < pieces(encode_utf8(sbs@)).len() ==> #[trigger] old(self).fits_anyhow((addr + i) as u64, 1),
        ensures
            r ==> old(self).wrote_fitting(*final(self), byte_writes(addr, spaced_bytes(encode_utf8(sbs@)))),
            !r ==> exists|k: int|
                0 <= k < spaced_bytes(encode_utf8(sbs@)).len() && #[trigger] old(self).stopped_at(
                    *final(self),
                    byte_writes(addr, spaced_bytes(encode_utf8(sbs@))),
                    k,
                ),
            !old(self).banzai_view() ==> r,
    {
        let bytes = self.spaced_bytes_to_bytes(sbs);
        let ghost m0 = *self;
        let ghost ws = byte_writes(addr, bytes@);
        proof {
            m0.lemma_run_start();
            assert(ws.take(0) =~= Seq::<(u64, Seq<u8>)>::empty());
        }
        let mut waddr = addr;
        let mut i: usize = 0;
        while i < bytes.len()
            invariant
                m0 == *old(self),
                bytes@ == spaced_bytes(encode_utf8(sbs@)),
                ws == byte_writes(addr, bytes@),
                bytes@.len() == pieces(encode_utf8(sbs@)).len(),
                addr + bytes@.len() <= u64::MAX,
                !m0.banzai_view() ==> forall|j: int|
                    0 <= j < bytes@.len() ==> #[trigger] m0.fits_anyhow((addr + j) as u64, 1),
                i <= bytes@.len(),
                waddr == addr + i,
                m0.same_layout(*self),
                m0.wrote_fitting(*self, ws.take(i as int)),
            decreases bytes@.len() - i,
        {
            let ghost prev = *self;
            proof {
                m0.lemma_same_layout_wf(prev);
                if !m0.banzai_view() {
                    assert(m0.fits_anyhow((addr + i) as u64, 1));
                    m0.lemma_field_fits(prev, waddr, 1);
                }
            }
            let b = bytes[i];
            let done = self.write_byte(waddr, b);
            proof {
                assert(ws[i as int] == (waddr, seq![b]));
                assert(ws.take(i as int + 1) =~= ws.take(i as int).push((waddr, seq![b])));
            }
            if !done {
                assert(prev.wrote_value(*self, ws[i as int].0, ws[i as int].1));
                assert(m0.wrote_fitting(prev, ws.take(i as int)) && !prev.fits(ws[i as int].0, ws[i as int].1.len()));
                assert(m0.stopped_at(*self, ws, i as int));
                return false;
            }
            proof {
                m0.lemma_wrote_fitting_push(prev, *self, ws.take(i as int), waddr, seq![b]);
                prev.lemma_wrote_value_layout(*self, waddr, seq![b]);
                m0.lemma_same_layout_trans(prev, *self);
            }
            waddr = waddr + 1;
            i = i + 1;
        }
        assert(ws.take(i as int) =~= ws);
        true
    }

    /// Whether the pattern lies in the region from `address` on.
    fn is_pattern_match_at(memory: &Mem64, address: u64, pattern: &Vec<u8>) -> (r: bool)
        requires
            memory.base_view() <= address <= memory.bottom_view(),
            memory.base_view() + memory.bytes().len() == memory.bottom_view(),
        ensures
            r == matches_at(*memory, address, pattern@),
    {
        let mut i: usize = 0;
        while i < pattern.len()
            invariant
                i <= pattern@.len(),
                memory.base_view() <= address,
                memory.base_view() + memory.bytes().len() == memory.bottom_view(),
                address + i <= memory.bottom_view(),
                forall|t: int| 0 <= t < i ==> #[trigger] memory.bytes()[memory.offset(address) + t] == pattern@[t],
            decreases pattern@.len() - i,
        {
            let current_addr = address + i as u64;
            if current_addr >= memory.get_bottom() {
                return false;
            }
            assert(memory.offset(current_addr) == memory.offset(address) + i);
            if memory.read_byte(current_addr) != pattern[i] {
                return false;
            }
            i = i + 1;
        }
        true
    }

    /// The lowest address, from the base of the first region (in key
    /// order) that spans `saddr` up to `saddr`, at which the bytes that
    /// `sbs` writes lie; zero when there is none.
    pub fn search_spaced_bytes_from(&self, sbs: &str, saddr: u64) -> (r: u64)
        requires
            self.wf(),
        ensures
            r == match self.first_key_below(usize::MAX as nat + 1, spans_addr(saddr)) {
                Some(k) => match first_match(
                    self.regions()[k],
                    self.regions()[k].base_view() as int,
                    saddr as int,
                    spaced_bytes(encode_utf8(sbs@)),
                ) {
                    Some(a) => a,
                    None => 0,
                },
                None => 0,
            },
    {
        let byte_pattern = self.spaced_bytes_to_bytes(sbs);
        let keys = slab_keys(&self.mem_slab);
        let ghost p = spans_addr(saddr);
        let mut i: usize = 0;
        proof {
            lemma_no_key_between(keys@, self.regions(), 0);
            if keys@.len() == 0 {
                self.lemma_first_key_gap(0, usize::MAX as nat + 1, p);
            } else {
                self.lemma_first_key_gap(0, keys@[0] as nat, p);
            }
        }
        while i < keys.len()
            invariant
                self.wf(),
                i <= keys@.len(),
                forall|a: int, b: int| 0 <= a < b < keys@.len() ==> keys@[a] < keys@[b],
                forall|k: usize| self.regions().contains_key(k) <==> keys@.contains(k),
                self.first_key_below(if i == 0 { 0 } else { keys@[i - 1] as nat + 1 }, p) is None,
                p == spans_addr(saddr),
                byte_pattern@ == spaced_bytes(encode_utf8(sbs@)),
            decreases keys@.len() - i,
        {
            let k = keys[i];
            let ghost lo: nat = if i == 0 { 0 } else { keys@[i - 1] as nat + 1 };
            proof {
                lemma_no_key_between(keys@, self.regions(), i as int);
                self.lemma_first_key_gap(lo, k as nat, p);
                assert(keys@.contains(k));
            }
            let memory = match slab_get(&self.mem_slab, k) {
                Some(m) => m,
                None => vstd::pervasive::unreached(),
            };
            if saddr < memory.get_base() || saddr >= memory.get_bottom() {
                i = i + 1;
                continue;
            }
            proof {
                self.lemma_first_key_stays(k as nat + 1, usize::MAX as nat + 1, p);
            }
            assert(self.first_key_below(usize::MAX as nat + 1, p) == Some(k));
            let mut current = memory.get_base();
            loop
                invariant_except_break
                    self.first_key_below(usize::MAX as nat + 1, p) == Some(k),
                    p == spans_addr(saddr),
                    byte_pattern@ == spaced_bytes(encode_utf8(sbs@)),
                    *memory == self.regions()[k],
                    memory.base_view() + memory.bytes().len() == memory.bottom_view(),
                    memory.base_view() <= current <= saddr,
                    saddr < memory.bottom_view(),
                    first_match(*memory, memory.base_view() as int, current - 1, byte_pattern@) is None,
                ensures
                    first_match(*memory, memory.base_view() as int, saddr as int, byte_pattern@) is None,
                decreases saddr - current,
            {
                if Maps::is_pattern_match_at(memory, current, &byte_pattern) {
                    proof {
                        self.lemma_first_match_stays(*memory, memory.base_view() as int, current as int, saddr as int, byte_pattern@);
                    }
                    return current;
                }
                if current == saddr {
                    break;
                }
                current = current + 1;
            }
            return 0;
        }
        proof {
            let lo: nat = if keys@.len() == 0 { 0 } else { keys@[keys@.len() - 1] as nat + 1 };
            lemma_no_key_between(keys@, self.regions(), keys@.len() as int);
            self.lemma_first_key_gap(lo, usize::MAX as nat + 1, p);
        }
        0
    }

    /// A match found at `a` stays the first one up to higher bounds.
    pub proof fn lemma_first_match_stays(&self, m: Mem64, lo: int, a: int, hi: int, pat: Seq<u8>)
        requires
            lo <= a <= hi,
            first_match(m, lo, a - 1, pat) is None,
            matches_at(m, a as u64, pat),
        ensures
            first_match(m, lo, hi, pat) == Some(a as u64),
        decreases hi - a,
    {
        if hi > a {
            self.lemma_first_match_stays(m, lo, a, hi - 1, pat);
        }
    }

    /// The highest address, from `start_address` down to the base of the
    /// first region (in key order) that spans it, at which the bytes that
    /// `spaced_bytes` writes lie; zero when there is none.
    pub fn search_spaced_bytes_from_bw(&self, spaced_bytes: &str, start_address: u64) -> (r: u64)
        requires
            self.wf(),
        ensures
            r == match self.first_key_below(usize::MAX as nat + 1, spans_addr(start_address)) {
                Some(k) => match last_match(
                    self.regions()[k],
                    self.regions()[k].base_view() as int,
                    start_address as int,
                    crate::maps::spaced_bytes(encode_utf8(spaced_bytes@)),
                ) {
                    Some(a) => a,
                    None => 0,
                },
                None => 0,
            },
    {
        let byte_pattern = self.spaced_bytes_to_bytes(spaced_bytes);
        let keys = slab_keys(&self.mem_slab);
        let ghost p = spans_addr(start_address);
        let mut i: usize = 0;
        proof {
            lemma_no_key_between(keys@, self.regions(), 0);
            if keys@.len() == 0 {
                self.lemma_first_key_gap(0, usize::MAX as nat + 1, p);
            } else {
                self.lemma_first_key_gap(0, keys@[0] as nat, p);
            }
        }
        while i < keys.len()
            invariant
                self.wf(),
                i <= keys@.len(),
                forall|a: int, b: int| 0 <= a < b < keys@.len() ==> keys@[a] < keys@[b],
                forall|k: usize| self.regions().contains_key(k) <==> keys@.contains(k),
                self.first_key_below(if i == 0 { 0 } else { keys@[i - 1] as nat + 1 }, p) is None,
                p == spans_addr(start_address),
                byte_pattern@ == crate::maps::spaced_bytes(encode_utf8(spaced_bytes@)),
            decreases keys@.len() - i,
        {
            let k = keys[i];
            let ghost lo: nat = if i == 0 { 0 } else { keys@[i - 1] as nat + 1 };
            proof {
                lemma_no_key_between(keys@, self.regions(), i as int);
                self.lemma_first_key_gap(lo, k as nat, p);
                assert(keys@.contains(k));
            }
            let memory = match slab_get(&self.mem_slab, k) {
                Some(m) => m,
                None => vstd::pervasive::unreached(),
            };
            if start_address < memory.get_base() || start_address >= memory.get_bottom() {
                i = i + 1;
                continue;
            }
            proof {
                self.lemma_first_key_stays(k as nat + 1, usize::MAX as nat + 1, p);
            }
            assert(self.first_key_below(usize::MAX as nat + 1, p) == Some(k));
            let base = memory.get_base();
            let mut current = start_address;
            loop
                invariant_except_break
                    self.first_key_below(usize::MAX as nat + 1, p) == Some(k),
                    p == spans_addr(start_address),
                    byte_pattern@ == crate::maps::spaced_bytes(encode_utf8(spaced_bytes@)),
                    *memory == self.regions()[k],
                    memory.base_view() + memory.bytes().len() == memory.bottom_view(),
                    base == memory.base_view(),
                    base <= current <= start_address,
                    start_address < memory.bottom_view(),
                    last_match(*memory, base as int, start_address as int, byte_pattern@) == last_match(
                        *memory,
                        base as int,
                        current as int,
                        byte_pattern@,
                    ),
                ensures
                    last_match(*memory, base as int, start_address as int, byte_pattern@) is None,
                decreases current - base,
            {
                if Maps::is_pattern_match_at(memory, current, &byte_pattern) {
                    return current;
                }
                if current == base {
                    assert(last_match(*memory, base as int, current - 1, byte_pattern@) is None);
                    break;
                }
                current = current - 1;
            }
            return 0;
        }
        proof {
            let lo: nat = if keys@.len() == 0 { 0 } else { keys@[keys@.len() - 1] as nat + 1 };
            lemma_no_key_between(keys@, self.regions(), keys@.len() as int);
            self.lemma_first_key_gap(lo, usize::MAX as nat + 1, p);
        }
        0
    }

    /// The addresses at which the bytes that `sbs` writes lie in the first
    /// region (in key order) with the name (see `search_bytes`).
    pub fn search_spaced_bytes(&self, sbs: &str, map_name: &str) -> (r: Vec<u64>)
        requires
            self.wf(),
        ensures
            r@ == match self.first_named_below(usize::MAX as nat + 1, map_name@) {
                Some(k) => match_addrs(
                    self.regions()[k],
                    self.regions()[k].base_view(),
                    self.regions()[k].bottom_view(),
                    spaced_bytes(encode_utf8(sbs@)),
                ),
                None => Seq::empty(),
            },
    {
        let bytes = self.spaced_bytes_to_bytes(sbs);
        self.search_bytes(bytes, map_name)
    }

    /// The addresses below 0x70000000, region after region in key order, at
    /// which the bytes that `sbs` writes lie.
    pub fn search_spaced_bytes_in_all(&self, sbs: &str) -> (r: Vec<u64>)
        requires
            self.wf(),
        ensures
            r@ == self.matches_below(usize::MAX as nat + 1, spaced_bytes(encode_utf8(sbs@))),
    {
        let bytes = self.spaced_bytes_to_bytes(sbs);
        let keys = slab_keys(&self.mem_slab);
        let mut found: Vec<u64> = Vec::new();
        let mut i: usize = 0;
        proof {
            lemma_no_key_between(keys@, self.regions(), 0);
            if keys@.len() == 0 {
                self.lemma_matches_gap(0, usize::MAX as nat + 1, bytes@);
            } else {
                self.lemma_matches_gap(0, keys@[0] as nat, bytes@);
            }
        }
        while i < keys.len()
            invariant
                self.wf(),
                i <= keys@.len(),
                forall|a: int, b: int| 0 <= a < b < keys@.len() ==> keys@[a] < keys@[b],
                forall|k: usize| self.regions().contains_key(k) <==> keys@.contains(k),
                found@ == self.matches_below(if i == 0 { 0 } else { keys@[i - 1] as nat + 1 }, bytes@),
                bytes@ == spaced_bytes(encode_utf8(sbs@)),
            decreases keys@.len() - i,
        {
            let k = keys[i];
            let ghost lo: nat = if i == 0 { 0 } else { keys@[i - 1] as nat + 1 };
            proof {
                lemma_no_key_between(keys@, self.regions(), i as int);
                self.lemma_matches_gap(lo, k as nat, bytes@);
                assert(keys@.contains(k));
            }
            let mem = match slab_get(&self.mem_slab, k) {
                Some(m) => m,
                None => vstd::pervasive::unreached(),
            };
            let ghost before = found@;
            let bottom = mem.get_bottom();
            let limit = if bottom < 0x7000_0000 {
                bottom
            } else {
                0x7000_0000
            };
            let mut addr = mem.get_base();
            if addr < limit {
                while addr < limit
                    invariant
                        *mem == self.regions()[k],
                        mem.base_view() + mem.bytes().len() == mem.bottom_view(),
                        bottom == mem.bottom_view(),
                        limit <= bottom,
                        mem.base_view() <= addr <= limit,
                        found@ == before + match_addrs(*mem, mem.base_view(), addr, bytes@),
                    decreases limit - addr,
                {
                    if Maps::is_pattern_match_at(mem, addr, &bytes) {
                        found.push(addr);
                    }
                    addr = addr + 1;
                    assert(found@ =~= before + match_addrs(*mem, mem.base_view(), addr, bytes@));
                }
            } else {
                assert(match_addrs(*mem, mem.base_view(), limit, bytes@) =~= Seq::<u64>::empty());
                assert(found@ =~= before + match_addrs(*mem, mem.base_view(), limit, bytes@));
            }
            assert(found@ =~= self.matches_below(k as nat + 1, bytes@));
            i = i + 1;
        }
        proof {
            let lo: nat = if keys@.len() == 0 { 0 } else { keys@[keys@.len() - 1] as nat + 1 };
            lemma_no_key_between(keys@, self.regions(), keys@.len() as int);
            self.lemma_matches_gap(lo, usize::MAX as nat + 1, bytes@);
        }
        found
    }

    /// Keeps only the characters whose low byte is printable ASCII, the
    /// space, the tab or zero.
    pub fn filter_string(&self, s: &mut String)
        ensures
            final(s)@ == filtered_chars(old(s)@),
    {
        let src = s.as_str();
        let n = src.unicode_len();
        let mut out = String::new();
        let mut i: usize = 0;
        while i < n
            invariant
                i <= n,
                n == src@.len(),
                src@ == old(s)@,
                out@ == filtered_chars(src@.take(i as int)),
            decreases n - i,
        {
            let c = src.get_char(i);
            let b = ((c as u32) % 256) as u8;
            proof {
                assert(src@.take((i + 1) as int).drop_last() =~= src@.take(i as int));
                assert(src@.take((i + 1) as int).last() == c);
            }
            if b == 0 || b == 9 || (0x20 <= b && b <= 0x7e) {
                push_char(&mut out, c);
            }
            i = i + 1;
        }
        assert(src@.take(n as int) =~= src@);
        *s = out;
    }

    /// An empty address space.
    pub fn new() -> (m: Maps)
        ensures
            m.wf(),
            m.regions() == Map::<usize, Mem64>::empty(),
            m.bases() == Map::<u64, usize>::empty(),
            m.names() == Map::<Seq<char>, usize>::empty(),
            !m.banzai_view(),
            !m.bits64_view(),
    {
        Maps {
            mem_slab: slab_with_capacity(200),
            maps: BTreeMap::new(),
            name_map: names_with_capacity(200),
            is_64bits: false,
            banzai: false,
            tlb: TLB::new(),
        }
    }

    /// Sets whether accesses to unmapped memory are tolerated.
    pub fn set_banzai(&mut self, banzai: bool)
        ensures
            final(self).banzai_view() == banzai,
            final(self).regions() == old(self).regions(),
            final(self).bases() == old(self).bases(),
            final(self).names() == old(self).names(),
            final(self).cache() == old(self).cache(),
            final(self).bits64_view() == old(self).bits64_view(),
    {
        self.banzai = banzai;
    }

    /// Forgets every region; the cache is kept.
    pub fn clear(&mut self)
        requires
            old(self).wf(),
        ensures
            final(self).wf(),
            final(self).regions() == Map::<usize, Mem64>::empty(),
            final(self).bases() == Map::<u64, usize>::empty(),
            final(self).names() == Map::<Seq<char>, usize>::empty(),
            final(self).cache() == old(self).cache(),
            final(self).banzai_view() == old(self).banzai_view(),
            final(self).bits64_view() == old(self).bits64_view(),
    {
        slab_clear(&mut self.mem_slab);
        self.maps.clear();
        names_clear(&mut self.name_map);
    }

    /// Whether a region has the name.
    pub fn exists_mapname(&self, name: &str) -> (r: bool)
        ensures
            r == self.names().contains_key(name@),
    {
        names_contains(&self.name_map, name)
    }

    /// The region with the name, if any.
    pub fn get_map_by_name(&self, name: &str) -> (r: Option<&Mem64>)
        requires
            self.wf(),
        ensures
            r is Some <==> self.names().contains_key(name@),
            r matches Some(m) ==> *m == self.regions()[self.names()[name@]],
    {
        match names_get(&self.name_map, name) {
            Some(k) => slab_get(&self.mem_slab, k),
            None => None,
        }
    }

    /// The region with the name, if any, to be changed in place.
    pub fn get_map_by_name_mut(&mut self, name: &str) -> (r: Option<&mut Mem64>)
        requires
            old(self).wf(),
        ensures
            r is Some <==> old(self).names().contains_key(name@),
            r is None ==> final(self).regions() == old(self).regions(),
            r is Some ==> *r->0 == old(self).regions()[old(self).names()[name@]]
                && final(self).regions() == old(self).regions().insert(
                old(self).names()[name@],
                *final(r->0),
            ),
            final(self).bases() == old(self).bases(),
            final(self).names() == old(self).names(),
            final(self).cache() == old(self).cache(),
            final(self).banzai_view() == old(self).banzai_view(),
            final(self).bits64_view() == old(self).bits64_view(),
    {
        let k = match names_get(&self.name_map, name) {
            Some(k) => k,
            None => {
                return None;
            },
        };
        slab_get_mut(&mut self.mem_slab, k)
    }
}

/// After a successful write of the `n` little endian bytes of `v` at
/// `addr`, the invariant holds, the same region spans them, and reading them
/// back gives `v`.
pub proof fn lemma_maps_read_after_write(before: Maps, after: Maps, addr: u64, v: nat, n: nat)
    requires
        before.wf(),
        before.fits(addr, n),
        v < pow256(n),
        before.stored(after, addr, le_bytes(v, n)),
        before.looked_up(after, addr),
    ensures
        after.wf(),
        after.region_for(addr) == before.region_for(addr),
        after.fits(addr, n),
        after.value_at(addr, n) == v,
{
    before.lemma_fits_holds(addr, n);
    before.lemma_store_keeps_wf(after, addr, le_bytes(v, n));
    let k = before.region_for(addr)->0;
    crate::maps::mem64::lemma_read_after_write(before.regions()[k], after.regions()[k], addr, v, n);
}

/// After a region is removed, no lookup finds it.
pub proof fn lemma_removed_region_not_found(after: Maps, k: usize, addr: u64)
    requires
        !after.regions().contains_key(k),
    ensures
        after.region_for(addr) != Some(k),
{
}

/// A region that `create_map` made, with at least one byte and left as it
/// was made, is found at its base.
pub proof fn lemma_created_region_found(before: Maps, after: Maps, k: usize, base: u64, size: u64)
    requires
        size > 0,
        !before.regions().contains_key(k),
        after.regions() == before.regions().insert(k, after.regions()[k]),
        after.regions()[k].base_view() == base,
        after.regions()[k].bottom_view() == base + size,
        after.bases() == before.bases().insert(base, k),
    ensures
        after.region_for(base) is Some,
        after.region_for(base)->0 == k || after.key_spans(after.region_for(base)->0, base),
        after.floor_region(base) == Some(k),
{
    assert(is_floor(after.bases(), base, base));
    after.lemma_floor_base(base, base);
}

/// A region made where no base, name or key was keeps the invariant.
pub proof fn lemma_created_keeps_wf(before: Maps, after: Maps, k: usize, base: u64, name: Seq<char>)
    requires
        before.wf(),
        !before.regions().contains_key(k),
        !before.bases().contains_key(base),
        !before.names().contains_key(name),
        after.regions() == before.regions().insert(k, after.regions()[k]),
        after.regions()[k].base_view() == base,
        after.regions()[k].name_view() == name,
        after.regions()[k].base_view() + after.regions()[k].bytes().len() == after.regions()[k].bottom_view(),
        after.bases() == before.bases().insert(base, k),
        after.names() == before.names().insert(name, k),
        after.cache().wf(),
    ensures
        after.wf(),
{
    assert forall|b: u64| #[trigger] after.bases().contains_key(b) implies after.regions().contains_key(
        after.bases()[b],
    ) && after.regions()[after.bases()[b]].base_view() == b by {
        if b != base {
            assert(before.bases().contains_key(b));
        }
    }
    assert forall|n: Seq<char>| #[trigger] after.names().contains_key(n) implies after.regions().contains_key(
        after.names()[n],
    ) && after.regions()[after.names()[n]].name_view() == n by {
        if n != name {
            assert(before.names().contains_key(n));
        }
    }
    assert forall|j: usize| #[trigger] after.regions().contains_key(j) implies {
        let m = after.regions()[j];
        &&& after.bases().contains_key(m.base_view())
        &&& after.bases()[m.base_view()] == j
        &&& after.names().contains_key(m.name_view())
        &&& after.names()[m.name_view()] == j
        &&& m.base_view() + m.bytes().len() == m.bottom_view()
    } by {
        if j != k {
            assert(before.regions().contains_key(j));
            let m = before.regions()[j];
            assert(before.bases().contains_key(m.base_view()));
            assert(before.names().contains_key(m.name_view()));
        }
    }
}

/// After a region that spans its base was made where a lookup found none,
/// a lookup of the base finds it.
pub proof fn lemma_created_is_found(before: Maps, after: Maps, k: usize, base: u64)
    requires
        before.wf(),
        before.region_for(base) is None,
        !before.regions().contains_key(k),
        after.regions() == before.regions().insert(k, after.regions()[k]),
        spans(after.regions()[k], base),
        after.bases() == before.bases().insert(base, k),
        after.cache().entries() == before.cache_after_lookup(base),
    ensures
        after.region_for(base) == Some(k),
{
    let i = crate::maps::tlb::tlb_index(lpf_of(base), 0) as int;
    crate::maps::tlb::lemma_tlb_index_bound(lpf_of(base), 0);
    let e = before.cached(base);
    assert(!before.key_spans(e.mem64, base));
    assert(before.floor_region(base) is None);
    assert(after.cache().entries()[i].mem64 == e.mem64);
    if after.key_spans(e.mem64, base) && e.mem64 != k {
        assert(before.regions().contains_key(e.mem64));
        assert(before.key_spans(e.mem64, base));
    }
    assert(is_floor(after.bases(), base, base));
    after.lemma_floor_base(base, base);
}

} // verus!
