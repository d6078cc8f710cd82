//! The instruction-set decision and the SMBIOS tables that describe the host.
use vstd::prelude::*;
use vstd::string::StringSliceAdditionalSpecFns;

verus! {

/// The widest vector path the host offers.
#[derive(Clone, Copy, Debug, PartialEq, Eq, Structural, Hash)]
pub enum InstructionSet {
    SSE,
    AVX2,
    AVX512,
}

/// CPUID leaf 7, subleaf 0, EBX: 256-bit integer SIMD.
pub const BIT_AVX2: u32 = 0x20;

/// CPUID leaf 7, subleaf 0, EBX: 512-bit foundation.
pub const BIT_AVX512F: u32 = 0x1_0000;

/// CPUID leaf 7, subleaf 0, EBX: 512-bit byte and word elements.
pub const BIT_AVX512BW: u32 = 0x4000_0000;

/// The vector path chosen from the extended feature flags.
pub open spec fn isa_of(ebx: u32) -> InstructionSet {
    if ebx & BIT_AVX512F != 0 && ebx & BIT_AVX512BW != 0 {
        InstructionSet::AVX512
    } else if ebx & BIT_AVX2 != 0 {
        InstructionSet::AVX2
    } else {
        InstructionSet::SSE
    }
}

/// Picks the widest vector path from CPUID leaf 7's EBX: the 512-bit path
/// needs both foundation and byte/word support, else the 256-bit path needs
/// AVX2, else there is none.
pub fn instruction_set_from_cpuid(ebx: u32) -> (r: InstructionSet)
    ensures
        r == isa_of(ebx),
{
    if (ebx & BIT_AVX512F) != 0 && (ebx & BIT_AVX512BW) != 0 {
        InstructionSet::AVX512
    } else if (ebx & BIT_AVX2) != 0 {
        InstructionSet::AVX2
    } else {
        InstructionSet::SSE
    }
}

/// Whether CPUID leaf 1's EAX names family 6, model 151: a part whose
/// 512-bit path is fused off although the core has it.
pub open spec fn needlessly_disabled(eax: u32) -> bool {
    let family = (eax >> 8u32) & 0x0Fu32;
    let model = ((eax >> 4u32) & 0x0Fu32) | ((eax >> 12u32) & 0xF0u32);
    family == 6 && model == 151
}

/// Tells from CPUID leaf 1's EAX whether the 512-bit path is fused off on this part.
pub fn needlessly_disabled_from_cpuid(eax: u32) -> (r: bool)
    ensures
        r == needlessly_disabled(eax),
{
    let family = (eax >> 8u32) & 0x0Fu32;
    let model = ((eax >> 4u32) & 0x0Fu32) | ((eax >> 12u32) & 0xF0u32);
    family == 6 && model == 151
}

/// 64-bit lanes per vector on a path, none without SIMD.
pub open spec fn isa_lanes(isa: InstructionSet) -> nat {
    match isa {
        InstructionSet::AVX512 => 8,
        InstructionSet::AVX2 => 4,
        InstructionSet::SSE => 0,
    }
}

/// 64-bit lanes per vector on a path.
pub fn lanes_for(isa: InstructionSet) -> (r: usize)
    ensures
        r == isa_lanes(isa),
{
    match isa {
        InstructionSet::AVX512 => 8,
        InstructionSet::AVX2 => 4,
        InstructionSet::SSE => 0,
    }
}


/// Byte `i` of a table, or zero past its end.
pub open spec fn byte_at(b: Seq<u8>, i: int) -> u8 {
    if 0 <= i < b.len() {
        b[i]
    } else {
        0
    }
}

/// The little-endian 16-bit word at `i`, reading zeros past the end.
pub open spec fn le16(b: Seq<u8>, i: int) -> u16 {
    (byte_at(b, i) as int + 256 * byte_at(b, i + 1) as int) as u16
}

/// The little-endian 32-bit word at `i`, reading zeros past the end.
pub open spec fn le32(b: Seq<u8>, i: int) -> u32 {
    (byte_at(b, i) as int + 0x100 * byte_at(b, i + 1) as int + 0x1_0000 * byte_at(b, i + 2) as int
        + 0x100_0000 * byte_at(b, i + 3) as int) as u32
}

fn byte_or_zero(buf: &[u8], i: usize) -> (r: u8)
    ensures
        r == byte_at(buf@, i as int),
{
    if i < buf.len() {
        buf[i]
    } else {
        0
    }
}

/// Byte `i + k` of the table, or zero past its end or where the index
/// would not fit in `usize`.
fn byte_after(buf: &[u8], i: usize, k: usize) -> (r: u8)
    requires
        k <= 3,
    ensures
        r == byte_at(buf@, i + k),
{
    if i < buf.len() && k < buf.len() - i {
        buf[i + k]
    } else {
        0
    }
}

/// The little-endian 16-bit word at `idx`; bytes past the end read as zero.
pub fn le_u16_at(buf: &[u8], idx: usize) -> (r: u16)
    ensures
        r == le16(buf@, idx as int),
{
    let a = byte_after(buf, idx, 0) as u16;
    let b = byte_after(buf, idx, 1) as u16;
    a + b * 256
}

/// The little-endian 32-bit word at `idx`; bytes past the end read as zero.
pub fn le_u32_at(buf: &[u8], idx: usize) -> (r: u32)
    ensures
        r == le32(buf@, idx as int),
{
    let a = byte_after(buf, idx, 0) as u32;
    let b = byte_after(buf, idx, 1) as u32;
    let c = byte_after(buf, idx, 2) as u32;
    let d = byte_after(buf, idx, 3) as u32;
    a + b * 0x100 + c * 0x1_0000 + d * 0x100_0000
}

/// The first `k >= p` where two zero bytes meet: the end of a structure's
/// string set.
pub open spec fn double_zero_from(b: Seq<u8>, p: int) -> Option<int>
    decreases b.len() - p,
{
    if p < 0 || p + 1 >= b.len() {
        None
    } else if b[p] == 0 && b[p + 1] == 0 {
        Some(p)
    } else {
        double_zero_from(b, p + 1)
    }
}

proof fn lemma_double_zero_bounds(b: Seq<u8>, p: int)
    ensures
        double_zero_from(b, p) matches Some(k) ==> p <= k && k + 1 < b.len(),
    decreases b.len() - p,
{
    if p >= 0 && p + 1 < b.len() && !(b[p] == 0 && b[p + 1] == 0) {
        lemma_double_zero_bounds(b, p + 1);
    }
}

/// The start of the structure after the one at `offset`: past its formatted
/// area of the length its header gives, and past the double zero that ends
/// its strings.
pub open spec fn next_structure(b: Seq<u8>, offset: int) -> Option<int> {
    if offset < 0 || offset + 1 >= b.len() {
        None
    } else {
        match double_zero_from(b, offset + b[offset + 1] as int) {
            Some(k) => Some(k + 2),
            None => None,
        }
    }
}

/// Finds the start of the structure after the one at `offset`.
pub fn smb_next_structure(buf: &[u8], offset: usize) -> (r: Option<usize>)
    requires
        buf@.len() + 256 <= usize::MAX,
    ensures
        r matches Some(n) ==> next_structure(buf@, offset as int) == Some(n as int),
        r is None ==> next_structure(buf@, offset as int) is None,
{
    if offset >= buf.len() || offset + 1 >= buf.len() {
        return None;
    }
    let len = buf[offset + 1] as usize;
    let mut next = offset + len;
    proof {
        lemma_double_zero_bounds(buf@, next as int);
    }
    while next + 1 < buf.len()
        invariant
            buf@.len() + 256 <= usize::MAX,
            offset + 1 < buf@.len(),
            offset + buf@[offset + 1] <= next <= buf@.len() + 255,
            double_zero_from(buf@, offset + buf@[offset + 1] as int) == double_zero_from(
                buf@,
                next as int,
            ),
        decreases buf@.len() + 255 - next,
    {
        if buf[next] == 0 && buf[next + 1] == 0 {
            return Some(next + 2);
        }
        next = next + 1;
    }
    None
}

/// The first zero byte at or after `p`.
pub open spec fn zero_from(b: Seq<u8>, p: int) -> Option<int>
    decreases b.len() - p,
{
    if p < 0 || p >= b.len() {
        None
    } else if b[p] == 0 {
        Some(p)
    } else {
        zero_from(b, p + 1)
    }
}

proof fn lemma_zero_bounds(b: Seq<u8>, p: int)
    ensures
        zero_from(b, p) matches Some(k) ==> p <= k < b.len() && b[k] == 0,
        zero_from(b, p) matches Some(k) ==> forall|j: int| p <= j < k ==> b[j] != 0,
    decreases b.len() - p,
{
    if 0 <= p < b.len() && b[p] != 0 {
        lemma_zero_bounds(b, p + 1);
    }
}

/// The byte range of string `k` (1-based) of a string set whose current
/// string starts at `p`, if the set holds that many.
pub open spec fn string_range_from(b: Seq<u8>, p: int, k: nat) -> Option<(int, int)>
    decreases b.len() - p, k,
{
    if p < 0 || p >= b.len() || k == 0 {
        None
    } else {
        match zero_from(b, p) {
            None => None,
            Some(e) => if k == 1 {
                Some((p, e))
            } else if p <= e && e + 1 < b.len() {
                if b[e + 1] == 0 {
                    None
                } else {
                    string_range_from(b, e + 1, (k - 1) as nat)
                }
            } else {
                None
            },
        }
    }
}

/// The byte range of string `index` of the structure at `start`.
pub open spec fn string_range(b: Seq<u8>, start: int, index: u8) -> Option<(int, int)> {
    if index == 0 || start < 0 || start + 1 >= b.len() {
        None
    } else {
        string_range_from(b, start + b[start + 1] as int, index as nat)
    }
}

/// What lossy UTF-8 decoding makes of a byte string.
pub uninterp spec fn utf8_lossy(b: Seq<u8>) -> Seq<char>;

/// A text with leading and trailing whitespace removed.
pub uninterp spec fn trim_ws(s: Seq<char>) -> Seq<char>;

/// Relies on `String::from_utf8_lossy`: the decoding depends on the bytes alone.
#[verifier::external_body]
fn decode_lossy(b: &[u8]) -> (r: String)
    ensures
        r@ == utf8_lossy(b@),
{
    String::from_utf8_lossy(b).into_owned()
}

/// Relies on `str::trim`: the result depends on the text alone.
#[verifier::external_body]
fn trim_text(s: &str) -> (r: String)
    ensures
        r@ == trim_ws(s@),
{
    s.trim().to_string()
}

/// The text of the bytes `p..e`: decoded, then trimmed.
pub open spec fn text_of(b: Seq<u8>, p: int, e: int) -> Seq<char> {
    trim_ws(utf8_lossy(b.subrange(p, e)))
}

/// String `index` of the structure at `start`, decoded and trimmed.
pub open spec fn smbios_string(b: Seq<u8>, start: int, index: u8) -> Option<Seq<char>> {
    match string_range(b, start, index) {
        Some((p, e)) => Some(text_of(b, p, e)),
        None => None,
    }
}

fn copy_range(buf: &[u8], p: usize, e: usize) -> (r: Vec<u8>)
    requires
        p <= e <= buf@.len(),
    ensures
        r@ == buf@.subrange(p as int, e as int),
{
    let mut r: Vec<u8> = Vec::new();
    let mut i: usize = p;
    while i < e
        invariant
            p <= i <= e <= buf@.len(),
            r@ == buf@.subrange(p as int, i as int),
        decreases e - i,
    {
        r.push(buf[i]);
        i = i + 1;
        assert(r@ =~= buf@.subrange(p as int, i as int));
    }
    r
}

/// Reads string `index` (1-based; zero means none) of the structure that
/// starts at `struct_start`.
pub fn get_smbios_string(buf: &[u8], struct_start: usize, index: u8) -> (r: Option<String>)
    requires
        buf@.len() + 256 <= usize::MAX,
    ensures
        r matches Some(s) ==> smbios_string(buf@, struct_start as int, index) == Some(s@),
        r is None ==> smbios_string(buf@, struct_start as int, index) is None,
{
    if index == 0 || struct_start >= buf.len() || struct_start + 1 >= buf.len() {
        return None;
    }
    let struct_len = buf[struct_start + 1] as usize;
    let mut p = struct_start + struct_len;
    let mut cur: u8 = 1;
    if p >= buf.len() {
        return None;
    }
    while p < buf.len()
        invariant
            buf@.len() + 256 <= usize::MAX,
            1 <= cur <= index,
            string_range(buf@, struct_start as int, index) == string_range_from(
                buf@,
                p as int,
                (index - cur + 1) as nat,
            ),
        decreases buf@.len() - p,
    {
        let mut e = p;
        while e < buf.len() && buf[e] != 0
            invariant
                p <= e <= buf@.len(),
                p < buf@.len(),
                zero_from(buf@, p as int) == zero_from(buf@, e as int),
            decreases buf@.len() - e,
        {
            e = e + 1;
        }
        if e >= buf.len() {
            return None;
        }
        proof {
            lemma_zero_bounds(buf@, p as int);
        }
        if cur == index {
            let bytes = copy_range(buf, p, e);
            let text = decode_lossy(bytes.as_slice());
            return Some(trim_text(text.as_str()));
        }
        cur = cur + 1;
        p = e + 1;
        if p < buf.len() && buf[p] == 0 {
            return None;
        }
    }
    None
}


/// A string's text, or the empty text when it is absent.
pub open spec fn text_or_empty(o: Option<Seq<char>>) -> Seq<char> {
    match o {
        Some(t) => t,
        None => Seq::empty(),
    }
}

/// The text of string number `byte_at(start + field)` of the structure at
/// `start`, empty when absent.
pub open spec fn field_text(b: Seq<u8>, start: int, field: int) -> Seq<char> {
    text_or_empty(smbios_string(b, start, byte_at(b, start + field)))
}

fn field_string(buf: &[u8], start: usize, field: usize) -> (r: String)
    requires
        buf@.len() + 256 <= usize::MAX,
        start < buf@.len(),
        field < 256,
    ensures
        r@ == field_text(buf@, start as int, field as int),
{
    let idx = byte_or_zero(buf, start + field);
    match get_smbios_string(buf, start, idx) {
        Some(t) => t,
        None => String::new(),
    }
}

/// The structure at `offset` has a length byte and its formatted area lies
/// inside the table.
pub open spec fn structure_fits(b: Seq<u8>, offset: int) -> bool {
    0 <= offset && offset + 1 < b.len() && offset + b[offset + 1] <= b.len()
}

fn fits(buf: &[u8], offset: usize) -> (r: bool)
    requires
        buf@.len() + 256 <= usize::MAX,
    ensures
        r == structure_fits(buf@, offset as int),
{
    offset < buf.len() && offset + 1 < buf.len() && offset + buf[offset + 1] as usize <= buf.len()
}

/// Baseboard (type 2) strings.
#[derive(Debug)]
pub struct BoardInfo {
    pub manufacturer: String,
    pub product: String,
    pub version: String,
    pub serial: String,
}

/// Reads the baseboard structure at `offset`, if it fits in the table.
pub fn parse_type2_board(buf: &[u8], offset: usize) -> (r: Option<BoardInfo>)
    requires
        buf@.len() + 256 <= usize::MAX,
    ensures
        r is Some <==> structure_fits(buf@, offset as int),
        r matches Some(bi) ==> {
            &&& bi.manufacturer@ == field_text(buf@, offset as int, 0x04)
            &&& bi.product@ == field_text(buf@, offset as int, 0x05)
            &&& bi.version@ == field_text(buf@, offset as int, 0x06)
            &&& bi.serial@ == field_text(buf@, offset as int, 0x07)
        },
{
    if !fits(buf, offset) {
        return None;
    }
    Some(
        BoardInfo {
            manufacturer: field_string(buf, offset, 0x04),
            product: field_string(buf, offset, 0x05),
            version: field_string(buf, offset, 0x06),
            serial: field_string(buf, offset, 0x07),
        },
    )
}

/// Processor (type 4) data, with cache sizes filled in later from the
/// cache structures its handles name.
#[derive(Debug)]
pub struct CpuInfo {
    pub manufacturer: String,
    pub name: String,
    pub socket: String,
    pub cores: u32,
    pub threads: u32,
    pub l1_kb: u32,
    pub l2_kb: u32,
    pub l3_kb: u32,
    pub l1_handle: u16,
    pub l2_handle: u16,
    pub l3_handle: u16,
}

/// A core or thread count byte: zero and 0xFF mean unknown.
pub open spec fn count_byte(x: u8) -> u32 {
    if x != 0 && x != 0xFF {
        x as u32
    } else {
        0
    }
}

/// Reads the processor structure at `offset`, if it fits in the table.
pub fn parse_type4_cpu(buf: &[u8], offset: usize) -> (r: Option<CpuInfo>)
    requires
        buf@.len() + 256 <= usize::MAX,
    ensures
        r is Some <==> structure_fits(buf@, offset as int),
        r matches Some(c) ==> {
            &&& c.manufacturer@ == field_text(buf@, offset as int, 0x07)
            &&& c.name@ == field_text(buf@, offset as int, 0x10)
            &&& c.socket@ == field_text(buf@, offset as int, 0x04)
            &&& c.l1_handle == le16(buf@, offset + 0x1A)
            &&& c.l2_handle == le16(buf@, offset + 0x1C)
            &&& c.l3_handle == le16(buf@, offset + 0x1E)
            &&& c.cores == count_byte(byte_at(buf@, offset + 0x23))
            &&& c.threads == count_byte(byte_at(buf@, offset + 0x25))
            &&& c.l1_kb == 0 && c.l2_kb == 0 && c.l3_kb == 0
        },
{
    if !fits(buf, offset) {
        return None;
    }
    let cb = byte_or_zero(buf, offset + 0x23);
    let tb = byte_or_zero(buf, offset + 0x25);
    Some(
        CpuInfo {
            manufacturer: field_string(buf, offset, 0x07),
            name: field_string(buf, offset, 0x10),
            socket: field_string(buf, offset, 0x04),
            cores: if cb != 0 && cb != 0xFF { cb as u32 } else { 0 },
            threads: if tb != 0 && tb != 0xFF { tb as u32 } else { 0 },
            l1_kb: 0,
            l2_kb: 0,
            l3_kb: 0,
            l1_handle: le_u16_at(buf, offset + 0x1A),
            l2_handle: le_u16_at(buf, offset + 0x1C),
            l3_handle: le_u16_at(buf, offset + 0x1E),
        },
    )
}

/// A cache's installed size in KiB from its size word: bit 15 selects
/// 64 KiB granularity.
pub open spec fn cache_kb(installed: u16) -> u32 {
    let raw = (installed & 0x7FFFu16) as u32;
    if raw == 0 {
        0
    } else if installed & 0x8000u16 != 0 {
        (raw * 64) as u32
    } else {
        raw
    }
}

/// What a cache (type 7) structure says: `(handle, size_kb, level, associativity)`.
pub open spec fn cache_entry(b: Seq<u8>, offset: int) -> (u16, u32, u8, u16) {
    (
        le16(b, offset + 2),
        cache_kb(le16(b, offset + 0x09)),
        (le16(b, offset + 0x05) & 7u16) as u8,
        le16(b, offset + 0x07),
    )
}

/// Reads the cache structure at `offset`, if it fits in the table.
pub fn parse_type7_cache(buf: &[u8], offset: usize) -> (r: Option<(u16, u32, u8, u16)>)
    requires
        buf@.len() + 256 <= usize::MAX,
    ensures
        r is Some <==> structure_fits(buf@, offset as int),
        r matches Some(e) ==> e == cache_entry(buf@, offset as int),
{
    if !fits(buf, offset) {
        return None;
    }
    let handle = le_u16_at(buf, offset + 2);
    let installed = le_u16_at(buf, offset + 0x09);
    let raw = (installed & 0x7FFFu16) as u32;
    assert(raw <= 0x7FFF) by (bit_vector)
        requires
            raw == (installed & 0x7FFFu16) as u32,
    ;
    let size_kb = if raw == 0 {
        0
    } else if installed & 0x8000u16 != 0 {
        raw * 64
    } else {
        raw
    };
    let cfg = le_u16_at(buf, offset + 0x05);
    let level = (cfg & 7u16) as u8;
    let assoc = le_u16_at(buf, offset + 0x07);
    Some((handle, size_kb, level, assoc))
}

/// The slot count byte of a memory array (type 16) structure.
pub fn parse_type16_array(buf: &[u8], offset: usize) -> (r: Option<u8>)
    requires
        buf@.len() + 256 <= usize::MAX,
    ensures
        r == Some(byte_at(buf@, offset + 0x0E)),
{
    if offset < buf.len() {
        Some(byte_or_zero(buf, offset + 0x0E))
    } else {
        Some(0)
    }
}

pub open spec fn is_digit(c: u8) -> bool {
    48 <= c <= 57
}

/// How many ASCII digits end `b`.
pub open spec fn trailing_digits(b: Seq<u8>) -> nat
    decreases b.len(),
{
    if b.len() > 0 && is_digit(b.last()) {
        1 + trailing_digits(b.drop_last())
    } else {
        0
    }
}

/// The decimal value of a string of ASCII digits.
pub open spec fn decimal_value(d: Seq<u8>) -> nat
    decreases d.len(),
{
    if d.len() == 0 {
        0
    } else {
        decimal_value(d.drop_last()) * 10 + (d.last() - 48) as nat
    }
}

/// The slot number a locator ends with, if its trailing digits form a
/// number that fits a byte.
pub open spec fn slot_of(b: Seq<u8>) -> Option<u8> {
    let n = trailing_digits(b);
    if n == 0 {
        None
    } else {
        let v = decimal_value(b.subrange(b.len() - n, b.len() as int));
        if v <= 255 {
            Some(v as u8)
        } else {
            None
        }
    }
}

proof fn lemma_trailing_digits(b: Seq<u8>)
    ensures
        trailing_digits(b) <= b.len(),
        forall|j: int| b.len() - trailing_digits(b) <= j < b.len() ==> is_digit(#[trigger] b[j]),
        trailing_digits(b) < b.len() ==> !is_digit(b[b.len() - trailing_digits(b) - 1]),
    decreases b.len(),
{
    if b.len() > 0 && is_digit(b.last()) {
        lemma_trailing_digits(b.drop_last());
        assert forall|j: int| b.len() - trailing_digits(b) <= j < b.len() implies is_digit(
            #[trigger] b[j],
        ) by {
            if j < b.len() - 1 {
                assert(b[j] == b.drop_last()[j]);
            }
        }
        if trailing_digits(b) < b.len() {
            assert(b[b.len() - trailing_digits(b) - 1] == b.drop_last()[b.len() - trailing_digits(b) - 1]);
        }
    }
}

pub proof fn lemma_decimal_grows(d: Seq<u8>, i: int)
    requires
        0 <= i <= d.len(),
        forall|j: int| 0 <= j < d.len() ==> is_digit(#[trigger] d[j]),
    ensures
        decimal_value(d.subrange(0, i)) <= decimal_value(d),
    decreases d.len() - i,
{
    if i < d.len() {
        lemma_decimal_grows(d, i + 1);
        let pre = d.subrange(0, i + 1);
        assert(pre.drop_last() =~= d.subrange(0, i));
        assert(pre.last() == d[i]);
    } else {
        assert(d.subrange(0, i) =~= d);
    }
}

/// The slot number at the end of a memory device's locator, after trimming.
pub fn parse_slot_index(locator: &str) -> (r: Option<u8>)
    ensures
        r == slot_of(vstd::utf8::encode_utf8(trim_ws(locator@))),
{
    let t = trim_text(locator);
    let ts = t.as_str();
    let b = ts.as_bytes();
    let ghost bs = b@;
    assert(bs == vstd::utf8::encode_utf8(trim_ws(locator@)));
    let n = b.len();
    let mut j: usize = n;
    proof {
        lemma_trailing_digits(bs);
    }
    while j > 0 && 48 <= b[j - 1] && b[j - 1] <= 57
        invariant
            bs == b@,
            n == bs.len(),
            n - trailing_digits(bs) <= j <= n,
            trailing_digits(bs) <= n,
            forall|k: int| n - trailing_digits(bs) <= k < n ==> is_digit(#[trigger] bs[k]),
            trailing_digits(bs) < n ==> !is_digit(bs[n - trailing_digits(bs) - 1]),
        decreases j,
    {
        j = j - 1;
    }
    assert(j == n - trailing_digits(bs));
    if j == n {
        assert(slot_of(bs) is None);
        return None;
    }
    let ghost ds = bs.subrange(j as int, n as int);
    let mut v: u32 = 0;
    let mut i: usize = j;
    while i < n
        invariant
            bs == b@,
            n == bs.len(),
            j <= i <= n,
            j == n - trailing_digits(bs),
            bs == vstd::utf8::encode_utf8(trim_ws(locator@)),
            ds == bs.subrange(j as int, n as int),
            forall|k: int| j <= k < n ==> is_digit(#[trigger] bs[k]),
            v == decimal_value(ds.subrange(0, i - j)),
            v <= 255,
        decreases n - i,
    {
        let dgt = (b[i] - 48) as u32;
        proof {
            let pre = ds.subrange(0, i - j + 1);
            assert(pre.drop_last() =~= ds.subrange(0, i - j));
            assert(pre.last() == bs[i as int]);
        }
        v = v * 10 + dgt;
        i = i + 1;
        assert(v == decimal_value(ds.subrange(0, i - j)));
        if v > 255 {
            proof {
                assert forall|k: int| 0 <= k < ds.len() implies is_digit(#[trigger] ds[k]) by {
                    assert(ds[k] == bs[j + k]);
                }
                lemma_decimal_grows(ds, i - j);
                assert(decimal_value(ds) > 255);
                assert(ds == bs.subrange(bs.len() - trailing_digits(bs), bs.len() as int));
                assert(slot_of(bs) is None);
            }
            return None;
        }
    }
    assert(ds.subrange(0, n - j) =~= ds);
    assert(ds == bs.subrange(bs.len() - trailing_digits(bs), bs.len() as int));
    assert(slot_of(bs) == Some(v as u8));
    Some(v as u8)
}


/// A memory device (type 17) record. Every recorded slot is kept; `populated`
/// tells whether a module sits in it.
#[derive(Debug)]
pub struct MemoryInfo {
    pub speed: u16,
    pub configured_speed: u16,
    pub manufacturer: String,
    pub part_number: String,
    pub serial: String,
    pub size_mb: u32,
    pub locator: String,
    pub slot_index: Option<u8>,
    pub channel_index: Option<usize>,
    pub channel_name: Option<String>,
    pub populated: bool,
}

/// A memory device's size in MiB: 0 and 0xFFFF mean none or unknown, and
/// 0x7FFF defers to the 32-bit extended size.
pub open spec fn mem_size(b: Seq<u8>, offset: int) -> u32 {
    let w = le16(b, offset + 0x0C);
    if w == 0 || w == 0xFFFF {
        0
    } else if w == 0x7FFF {
        le32(b, offset + 0x1C)
    } else {
        w as u32
    }
}

/// A memory device record as the structure at `offset` gives it, channel
/// fields aside.
pub open spec fn device_matches(m: MemoryInfo, b: Seq<u8>, offset: int) -> bool {
    &&& m.speed == le16(b, offset + 0x15)
    &&& m.configured_speed == le16(b, offset + 0x20)
    &&& m.size_mb == mem_size(b, offset)
    &&& m.populated == (mem_size(b, offset) > 0)
    &&& m.locator@ == field_text(b, offset, 0x10)
    &&& m.manufacturer@ == field_text(b, offset, 0x17)
    &&& m.serial@ == field_text(b, offset, 0x18)
    &&& m.part_number@ == field_text(b, offset, 0x1A)
    &&& m.slot_index == slot_of(vstd::utf8::encode_utf8(trim_ws(field_text(b, offset, 0x10))))
}

/// Reads the memory device structure at `offset`, if it fits in the table.
pub fn parse_type17_memory(buf: &[u8], offset: usize) -> (r: Option<MemoryInfo>)
    requires
        buf@.len() + 256 <= usize::MAX,
    ensures
        r is Some <==> structure_fits(buf@, offset as int),
        r matches Some(m) ==> device_matches(m, buf@, offset as int) && m.channel_index is None
            && m.channel_name is None,
{
    if !fits(buf, offset) {
        return None;
    }
    let size_word = le_u16_at(buf, offset + 0x0C);
    let size_mb = if size_word == 0 || size_word == 0xFFFF {
        0u32
    } else if size_word == 0x7FFF {
        le_u32_at(buf, offset + 0x1C)
    } else {
        size_word as u32
    };
    let locator = field_string(buf, offset, 0x10);
    let slot_index = parse_slot_index(locator.as_str());
    Some(
        MemoryInfo {
            speed: le_u16_at(buf, offset + 0x15),
            configured_speed: le_u16_at(buf, offset + 0x20),
            manufacturer: field_string(buf, offset, 0x17),
            part_number: field_string(buf, offset, 0x1A),
            serial: field_string(buf, offset, 0x18),
            size_mb,
            locator,
            slot_index,
            channel_index: None,
            channel_name: None,
            populated: size_mb > 0,
        },
    )
}

/// What the SMBIOS tables say about the host.
#[derive(Debug)]
pub struct SystemInfo {
    pub cpu: Option<CpuInfo>,
    pub board: Option<BoardInfo>,
    pub memory_devices: Vec<MemoryInfo>,
    /// The slot count of the first memory array that gives a nonzero one.
    pub memory_array_slots: Option<u8>,
    pub hide_serials: bool,
}

/// The structures a walk from `offset` visits: it stops at a structure
/// shorter than a header, of length zero, overrunning the table, or without
/// a string-set terminator.
pub open spec fn walk_from(b: Seq<u8>, offset: int) -> Seq<int>
    decreases b.len() - offset,
{
    if offset < 0 || offset + 4 > b.len() || b[offset + 1] == 0 || offset + b[offset + 1] > b.len() {
        Seq::empty()
    } else {
        seq![offset] + match next_structure(b, offset) {
            Some(n) => if offset < n <= b.len() {
                walk_from(b, n)
            } else {
                Seq::empty()
            },
            None => Seq::empty(),
        }
    }
}

/// The first of `offs` whose structure has type `t`.
pub open spec fn first_of_type(b: Seq<u8>, offs: Seq<int>, t: u8) -> Option<int>
    decreases offs.len(),
{
    if offs.len() == 0 {
        None
    } else {
        match first_of_type(b, offs.drop_last(), t) {
            Some(o) => Some(o),
            None => if b[offs.last()] == t {
                Some(offs.last())
            } else {
                None
            },
        }
    }
}

/// All of `offs` whose structure has type `t`, in order.
pub open spec fn all_of_type(b: Seq<u8>, offs: Seq<int>, t: u8) -> Seq<int>
    decreases offs.len(),
{
    if offs.len() == 0 {
        Seq::empty()
    } else {
        all_of_type(b, offs.drop_last(), t) + if b[offs.last()] == t {
            seq![offs.last()]
        } else {
            Seq::empty()
        }
    }
}

/// The slot count of the first memory array in `offs` that gives a nonzero one.
pub open spec fn first_array_slots(b: Seq<u8>, offs: Seq<int>) -> Option<u8>
    decreases offs.len(),
{
    if offs.len() == 0 {
        None
    } else {
        match first_array_slots(b, offs.drop_last()) {
            Some(n) => Some(n),
            None => if b[offs.last()] == 16 && byte_at(b, offs.last() + 0x0E) != 0 {
                Some(byte_at(b, offs.last() + 0x0E))
            } else {
                None
            },
        }
    }
}

/// The cache structures among `offs`, as `(handle, size_kb, level, associativity)`.
pub open spec fn cache_entries(b: Seq<u8>, offs: Seq<int>) -> Seq<(u16, u32, u8, u16)>
    decreases offs.len(),
{
    if offs.len() == 0 {
        Seq::empty()
    } else {
        cache_entries(b, offs.drop_last()) + if b[offs.last()] == 7 {
            seq![cache_entry(b, offs.last())]
        } else {
            Seq::empty()
        }
    }
}

/// The size of the last cache entry with handle `h`: a later structure
/// with the same handle replaces an earlier one.
pub open spec fn cache_lookup(entries: Seq<(u16, u32, u8, u16)>, h: u16) -> Option<u32>
    decreases entries.len(),
{
    if entries.len() == 0 {
        None
    } else if entries.last().0 == h {
        Some(entries.last().1)
    } else {
        cache_lookup(entries.drop_last(), h)
    }
}

/// Looks up the size of the cache with handle `h`.
pub fn find_cache(entries: &Vec<(u16, u32, u8, u16)>, h: u16) -> (r: Option<u32>)
    ensures
        r == cache_lookup(entries@, h),
{
    let mut i: usize = entries.len();
    assert(entries@.subrange(0, i as int) =~= entries@);
    while i > 0
        invariant
            i <= entries@.len(),
            cache_lookup(entries@, h) == cache_lookup(entries@.subrange(0, i as int), h),
        decreases i,
    {
        let e = entries[i - 1];
        proof {
            let pre = entries@.subrange(0, i as int);
            assert(pre.drop_last() =~= entries@.subrange(0, i - 1));
        }
        if e.0 == h {
            return Some(e.1);
        }
        i = i - 1;
    }
    None
}

/// A cache size for a processor's cache handle; 0 and 0xFFFF name no cache.
pub open spec fn handle_kb(entries: Seq<(u16, u32, u8, u16)>, h: u16) -> u32 {
    if h != 0 && h != 0xFFFF {
        match cache_lookup(entries, h) {
            Some(sz) => sz,
            None => 0,
        }
    } else {
        0
    }
}

/// Fills in the processor's cache sizes from the cache entries its handles name.
pub fn apply_cache_handles(sys: &mut SystemInfo, cache_map: &Vec<(u16, u32, u8, u16)>)
    requires
        old(sys).cpu matches Some(c) ==> c.l1_kb == 0 && c.l2_kb == 0 && c.l3_kb == 0,
    ensures
        final(sys).board == old(sys).board,
        final(sys).memory_devices == old(sys).memory_devices,
        final(sys).memory_array_slots == old(sys).memory_array_slots,
        final(sys).hide_serials == old(sys).hide_serials,
        final(sys).cpu is Some <==> old(sys).cpu is Some,
        final(sys).cpu matches Some(c) ==> {
            let o = old(sys).cpu.unwrap();
            &&& c.manufacturer == o.manufacturer
            &&& c.name == o.name
            &&& c.socket == o.socket
            &&& c.cores == o.cores
            &&& c.threads == o.threads
            &&& c.l1_handle == o.l1_handle
            &&& c.l2_handle == o.l2_handle
            &&& c.l3_handle == o.l3_handle
            &&& c.l1_kb == handle_kb(cache_map@, o.l1_handle)
            &&& c.l2_kb == handle_kb(cache_map@, o.l2_handle)
            &&& c.l3_kb == handle_kb(cache_map@, o.l3_handle)
        },
{
    match &mut sys.cpu {
        Some(cpu) => {
            if cpu.l1_handle != 0 && cpu.l1_handle != 0xFFFF {
                match find_cache(cache_map, cpu.l1_handle) {
                    Some(sz) => {
                        cpu.l1_kb = sz;
                    },
                    None => {},
                }
            }
            if cpu.l2_handle != 0 && cpu.l2_handle != 0xFFFF {
                match find_cache(cache_map, cpu.l2_handle) {
                    Some(sz) => {
                        cpu.l2_kb = sz;
                    },
                    None => {},
                }
            }
            if cpu.l3_handle != 0 && cpu.l3_handle != 0xFFFF {
                match find_cache(cache_map, cpu.l3_handle) {
                    Some(sz) => {
                        cpu.l3_kb = sz;
                    },
                    None => {},
                }
            }
        },
        None => {},
    }
}


/// The baseboard record as the structure at `o` gives it.
pub open spec fn board_at(bi: BoardInfo, b: Seq<u8>, o: int) -> bool {
    &&& bi.manufacturer@ == field_text(b, o, 0x04)
    &&& bi.product@ == field_text(b, o, 0x05)
    &&& bi.version@ == field_text(b, o, 0x06)
    &&& bi.serial@ == field_text(b, o, 0x07)
}

/// The processor record as the structure at `o` gives it, before cache
/// sizes and count fallbacks.
pub open spec fn cpu_at(c: CpuInfo, b: Seq<u8>, o: int) -> bool {
    &&& c.manufacturer@ == field_text(b, o, 0x07)
    &&& c.name@ == field_text(b, o, 0x10)
    &&& c.socket@ == field_text(b, o, 0x04)
    &&& c.l1_handle == le16(b, o + 0x1A)
    &&& c.l2_handle == le16(b, o + 0x1C)
    &&& c.l3_handle == le16(b, o + 0x1E)
    &&& c.cores == count_byte(byte_at(b, o + 0x23))
    &&& c.threads == count_byte(byte_at(b, o + 0x25))
    &&& c.l1_kb == 0 && c.l2_kb == 0 && c.l3_kb == 0
}

/// What one walk over the table collects, before cache sizes, count
/// fallbacks and channels.
pub open spec fn walk_result(sys: SystemInfo, b: Seq<u8>, offs: Seq<int>) -> bool {
    &&& (sys.board is Some <==> first_of_type(b, offs, 2) is Some)
    &&& (sys.board matches Some(bi) ==> board_at(bi, b, first_of_type(b, offs, 2).unwrap()))
    &&& (sys.cpu is Some <==> first_of_type(b, offs, 4) is Some)
    &&& (sys.cpu matches Some(c) ==> cpu_at(c, b, first_of_type(b, offs, 4).unwrap()))
    &&& sys.memory_array_slots == first_array_slots(b, offs)
    &&& sys.memory_devices@.len() == all_of_type(b, offs, 17).len()
    &&& forall|k: int|
        0 <= k < sys.memory_devices@.len() ==> device_matches(
            #[trigger] sys.memory_devices@[k],
            b,
            all_of_type(b, offs, 17)[k],
        ) && sys.memory_devices@[k].channel_index is None && sys.memory_devices@[k].channel_name is None
    &&& !sys.hide_serials
}

proof fn lemma_walk_step(b: Seq<u8>, offset: int)
    requires
        offset >= 0,
        offset + 4 <= b.len(),
        b[offset + 1] != 0,
        offset + b[offset + 1] <= b.len(),
    ensures
        next_structure(b, offset) matches Some(n) ==> offset < n <= b.len() && walk_from(b, offset)
            == seq![offset] + walk_from(b, n),
        next_structure(b, offset) is None ==> walk_from(b, offset) == seq![offset],
{
    lemma_double_zero_bounds(b, offset + b[offset + 1] as int);
    assert(seq![offset] + Seq::<int>::empty() =~= seq![offset]);
}

/// Takes in the structure at `offset`, which the walk visits after `visited`.
fn absorb_structure(
    sys: &mut SystemInfo,
    caches: &mut Vec<(u16, u32, u8, u16)>,
    buf: &[u8],
    offset: usize,
    Ghost(visited): Ghost<Seq<int>>,
)
    requires
        buf@.len() + 256 <= usize::MAX,
        structure_fits(buf@, offset as int),
        walk_result(*old(sys), buf@, visited),
        old(caches)@ == cache_entries(buf@, visited),
    ensures
        walk_result(*final(sys), buf@, visited.push(offset as int)),
        final(caches)@ == cache_entries(buf@, visited.push(offset as int)),
{
    let ghost b = buf@;
    let ghost now = visited.push(offset as int);
    assert(now.drop_last() == visited);
    assert(now.last() == offset as int);
    let typ = buf[offset];
    if typ == 2 {
        if sys.board.is_none() {
            sys.board = parse_type2_board(buf, offset);
        }
    } else if typ == 4 {
        if sys.cpu.is_none() {
            sys.cpu = parse_type4_cpu(buf, offset);
        }
    } else if typ == 7 {
        match parse_type7_cache(buf, offset) {
            Some(e) => {
                caches.push(e);
            },
            None => {},
        }
    } else if typ == 16 {
        if sys.memory_array_slots.is_none() {
            match parse_type16_array(buf, offset) {
                Some(n) => {
                    if n > 0 {
                        sys.memory_array_slots = Some(n);
                    }
                },
                None => {},
            }
        }
    } else if typ == 17 {
        match parse_type17_memory(buf, offset) {
            Some(m) => {
                sys.memory_devices.push(m);
            },
            None => {},
        }
    }
    proof {
        let all17 = all_of_type(b, now, 17);
        if typ == 17 {
            assert(all17 == all_of_type(b, visited, 17).push(offset as int));
            assert forall|k: int| 0 <= k < sys.memory_devices@.len() implies device_matches(
                #[trigger] sys.memory_devices@[k],
                b,
                all17[k],
            ) && sys.memory_devices@[k].channel_index is None && sys.memory_devices@[k].channel_name
                is None by {
                if k < all_of_type(b, visited, 17).len() {
                    assert(all17[k] == all_of_type(b, visited, 17)[k]);
                }
            }
        } else {
            assert(all17 =~= all_of_type(b, visited, 17));
        }
        if typ == 7 {
            assert(cache_entries(b, now) =~= cache_entries(b, visited).push(
                cache_entry(b, offset as int),
            ));
        } else {
            assert(cache_entries(b, now) =~= cache_entries(b, visited));
        }
    }
}

/// Walks the table once, collecting the first baseboard and processor, the
/// first nonzero memory array slot count, every memory device, and every
/// cache entry.
fn walk_table(buf: &[u8]) -> (r: (SystemInfo, Vec<(u16, u32, u8, u16)>))
    requires
        buf@.len() + 256 <= usize::MAX,
    ensures
        walk_result(r.0, buf@, walk_from(buf@, 0)),
        r.1@ == cache_entries(buf@, walk_from(buf@, 0)),
{
    let mut sys = SystemInfo {
        cpu: None,
        board: None,
        memory_devices: Vec::new(),
        memory_array_slots: None,
        hide_serials: false,
    };
    let mut caches: Vec<(u16, u32, u8, u16)> = Vec::new();
    let ghost b = buf@;
    let ghost whole = walk_from(b, 0);
    let ghost mut visited: Seq<int> = Seq::empty();
    let mut offset: usize = 0;
    assert(visited + walk_from(b, 0) =~= whole);
    loop
        invariant_except_break
            visited + walk_from(b, offset as int) == whole,
        invariant
            b == buf@,
            buf@.len() + 256 <= usize::MAX,
            offset <= buf@.len(),
            walk_result(sys, b, visited),
            caches@ == cache_entries(b, visited),
        ensures
            visited == whole,
            walk_result(sys, b, visited),
            caches@ == cache_entries(b, visited),
        decreases buf@.len() - offset,
    {
        if offset + 4 > buf.len() || buf[offset + 1] == 0 || offset + buf[offset + 1] as usize
            > buf.len() {
            assert(visited =~= visited + walk_from(b, offset as int));
            break;
        }
        proof {
            lemma_walk_step(b, offset as int);
        }
        absorb_structure(&mut sys, &mut caches, buf, offset, Ghost(visited));
        let ghost prev = visited;
        proof {
            visited = visited.push(offset as int);
        }
        match smb_next_structure(buf, offset) {
            Some(n) => {
                assert(visited + walk_from(b, n as int) =~= prev + walk_from(b, offset as int));
                offset = n;
            },
            None => {
                assert(visited =~= prev + walk_from(b, offset as int));
                break;
            },
        }
    }
    (sys, caches)
}


/// Two devices share a channel key: equal slot numbers, or, when neither has
/// one, equal locators.
pub open spec fn same_key(a: MemoryInfo, c: MemoryInfo) -> bool {
    match (a.slot_index, c.slot_index) {
        (Some(x), Some(y)) => x == y,
        (None, None) => a.locator@ == c.locator@,
        _ => false,
    }
}

/// How many of the devices before `j` share device `i`'s key.
pub open spec fn count_same(devs: Seq<MemoryInfo>, i: int, j: int) -> nat
    decreases j,
{
    if j <= 0 {
        0
    } else {
        count_same(devs, i, j - 1) + if same_key(devs[j - 1], devs[i]) {
            1nat
        } else {
            0nat
        }
    }
}

proof fn lemma_count_same_bound(devs: Seq<MemoryInfo>, i: int, j: int)
    ensures
        count_same(devs, i, j) <= if j < 0 { 0 } else { j },
    decreases j,
{
    if j > 0 {
        lemma_count_same_bound(devs, i, j - 1);
    }
}

/// A device's channel: how many earlier devices share its key.
pub open spec fn channel_of(devs: Seq<MemoryInfo>, i: int) -> nat {
    count_same(devs, i, i)
}

/// The most devices sharing one key among the first `n`.
pub open spec fn max_channels_upto(devs: Seq<MemoryInfo>, n: int) -> nat
    decreases n,
{
    if n <= 0 {
        0
    } else {
        let m = max_channels_upto(devs, n - 1);
        let c = channel_of(devs, n - 1) + 1;
        if c > m {
            c
        } else {
            m
        }
    }
}

/// The channel count the devices imply, at least one.
pub open spec fn max_channels(devs: Seq<MemoryInfo>) -> nat {
    let m = max_channels_upto(devs, devs.len() as int);
    if m == 0 {
        1
    } else {
        m
    }
}

pub open spec fn letters() -> Seq<char> {
    seq![
        'A', 'B', 'C', 'D', 'E', 'F', 'G', 'H', 'I', 'J', 'K', 'L', 'M',
        'N', 'O', 'P', 'Q', 'R', 'S', 'T', 'U', 'V', 'W', 'X', 'Y', 'Z',
    ]
}

pub open spec fn digits() -> Seq<char> {
    seq!['0', '1', '2', '3', '4', '5', '6', '7', '8', '9']
}

/// The decimal digits of `n`.
pub open spec fn decimal_chars(n: nat) -> Seq<char>
    decreases n,
{
    if n < 10 {
        seq![digits()[n as int]]
    } else {
        decimal_chars(n / 10).push(digits()[(n % 10) as int])
    }
}

pub open spec fn channel_prefix() -> Seq<char> {
    seq!['C', 'h', 'a', 'n', 'n', 'e', 'l', ' ']
}

/// A channel's display name: by letter (the last letter for any beyond it)
/// when there are at most 26 channels, else by number.
pub open spec fn channel_label(ch: nat, lettered: bool) -> Seq<char> {
    if lettered {
        channel_prefix().push(letters()[if ch < 25 { ch as int } else { 25 }])
    } else {
        channel_prefix() + decimal_chars(ch)
    }
}

/// Relies on `String`'s `FromIterator<char>`: the string holds the chars in order.
#[verifier::external_body]
fn string_from_chars(v: &Vec<char>) -> (r: String)
    ensures
        r@ == v@,
{
    v.iter().collect()
}

fn push_decimal(out: &mut Vec<char>, n: usize)
    ensures
        final(out)@ == old(out)@ + decimal_chars(n as nat),
    decreases n,
{
    let ds = vec!['0', '1', '2', '3', '4', '5', '6', '7', '8', '9'];
    assert(ds@ =~= digits());
    if n >= 10 {
        push_decimal(out, n / 10);
    }
    out.push(ds[n % 10]);
    assert(out@ =~= old(out)@ + decimal_chars(n as nat));
}

/// The display name of channel `ch`.
pub fn channel_name(ch: usize, lettered: bool) -> (r: String)
    ensures
        r@ == channel_label(ch as nat, lettered),
{
    let mut v: Vec<char> = vec!['C', 'h', 'a', 'n', 'n', 'e', 'l', ' '];
    assert(v@ =~= channel_prefix());
    if lettered {
        let ls = vec![
            'A', 'B', 'C', 'D', 'E', 'F', 'G', 'H', 'I', 'J', 'K', 'L', 'M',
            'N', 'O', 'P', 'Q', 'R', 'S', 'T', 'U', 'V', 'W', 'X', 'Y', 'Z',
        ];
        assert(ls@ =~= letters());
        let k = if ch < 25 { ch } else { 25 };
        v.push(ls[k]);
    } else {
        push_decimal(&mut v, ch);
    }
    string_from_chars(&v)
}

fn key_eq(a: &MemoryInfo, c: &MemoryInfo) -> (r: bool)
    ensures
        r == same_key(*a, *c),
{
    match (a.slot_index, c.slot_index) {
        (Some(x), Some(y)) => x == y,
        (None, None) => a.locator == c.locator,
        _ => false,
    }
}

/// Everything of a device record but its channel.
pub open spec fn same_record(a: MemoryInfo, c: MemoryInfo) -> bool {
    &&& a.speed == c.speed
    &&& a.configured_speed == c.configured_speed
    &&& a.manufacturer == c.manufacturer
    &&& a.part_number == c.part_number
    &&& a.serial == c.serial
    &&& a.size_mb == c.size_mb
    &&& a.locator == c.locator
    &&& a.slot_index == c.slot_index
    &&& a.populated == c.populated
}

/// Gives every memory device its channel: devices that share a key take
/// channels 0, 1, 2, ... in table order, and each is named by letter when
/// no key repeats more than 26 times, else by number.
pub fn assign_memory_channels(sys: &mut SystemInfo)
    ensures
        final(sys).cpu == old(sys).cpu,
        final(sys).board == old(sys).board,
        final(sys).memory_array_slots == old(sys).memory_array_slots,
        final(sys).hide_serials == old(sys).hide_serials,
        final(sys).memory_devices@.len() == old(sys).memory_devices@.len(),
        forall|i: int|
            0 <= i < final(sys).memory_devices@.len() ==> {
                let m = #[trigger] final(sys).memory_devices@[i];
                let devs = old(sys).memory_devices@;
                &&& same_record(m, devs[i])
                &&& m.channel_index == Some(channel_of(devs, i) as usize)
                &&& m.channel_name is Some
                &&& m.channel_name.unwrap()@ == channel_label(
                    channel_of(devs, i),
                    max_channels(devs) <= 26,
                )
            },
{
    let ghost devs = sys.memory_devices@;
    let n = sys.memory_devices.len();
    let mut chans: Vec<usize> = Vec::new();
    let mut i: usize = 0;
    while i < n
        invariant
            n == devs.len(),
            sys.memory_devices@ == devs,
            i <= n,
            chans@.len() == i,
            forall|k: int| 0 <= k < i ==> #[trigger] chans@[k] == channel_of(devs, k),
        decreases n - i,
    {
        let mut c: usize = 0;
        let mut j: usize = 0;
        while j < i
            invariant
                n == devs.len(),
                sys.memory_devices@ == devs,
                i < n,
                j <= i,
                c == count_same(devs, i as int, j as int),
                c <= j,
            decreases i - j,
        {
            if key_eq(&sys.memory_devices[j], &sys.memory_devices[i]) {
                c = c + 1;
            }
            j = j + 1;
        }
        chans.push(c);
        i = i + 1;
    }
    let mut maxc: usize = 0;
    let mut i: usize = 0;
    proof {
        assert forall|k: int| 0 <= k < n implies channel_of(devs, k) <= k by {
            lemma_count_same_bound(devs, k, k);
        }
    }
    while i < n
        invariant
            n == devs.len(),
            i <= n,
            chans@.len() == n,
            forall|k: int| 0 <= k < n ==> #[trigger] chans@[k] == channel_of(devs, k),
            forall|k: int| 0 <= k < n ==> channel_of(devs, k) <= k,
            maxc == max_channels_upto(devs, i as int),
            maxc <= i,
        decreases n - i,
    {
        let c = chans[i] + 1;
        if c > maxc {
            maxc = c;
        }
        i = i + 1;
    }
    if maxc == 0 {
        maxc = 1;
    }
    let lettered = maxc <= 26;
    let mut i: usize = 0;
    while i < n
        invariant
            n == devs.len(),
            i <= n,
            chans@.len() == n,
            forall|k: int| 0 <= k < n ==> #[trigger] chans@[k] == channel_of(devs, k),
            lettered == (max_channels(devs) <= 26),
            sys.memory_devices@.len() == n,
            sys.cpu == old(sys).cpu,
            sys.board == old(sys).board,
            sys.memory_array_slots == old(sys).memory_array_slots,
            sys.hide_serials == old(sys).hide_serials,
            devs == old(sys).memory_devices@,
            forall|k: int| i <= k < n ==> #[trigger] sys.memory_devices@[k] == devs[k],
            forall|k: int|
                0 <= k < i ==> {
                    let m = #[trigger] sys.memory_devices@[k];
                    &&& same_record(m, devs[k])
                    &&& m.channel_index == Some(channel_of(devs, k) as usize)
                    &&& m.channel_name is Some
                    &&& m.channel_name.unwrap()@ == channel_label(
                        channel_of(devs, k),
                        max_channels(devs) <= 26,
                    )
                },
        decreases n - i,
    {
        let ch = chans[i];
        let nm = channel_name(ch, lettered);
        sys.memory_devices[i].channel_index = Some(ch);
        sys.memory_devices[i].channel_name = Some(nm);
        i = i + 1;
    }
}


proof fn lemma_keys_kept(a: Seq<MemoryInfo>, c: Seq<MemoryInfo>, i: int, j: int)
    requires
        a.len() == c.len(),
        0 <= i < a.len(),
        j <= a.len(),
        forall|k: int| 0 <= k < a.len() ==> same_record(#[trigger] a[k], c[k]),
    ensures
        count_same(a, i, j) == count_same(c, i, j),
    decreases j,
{
    if j > 0 {
        lemma_keys_kept(a, c, i, j - 1);
        assert(same_record(a[j - 1], c[j - 1]));
        assert(same_record(a[i], c[i]));
    }
}

proof fn lemma_max_kept(a: Seq<MemoryInfo>, c: Seq<MemoryInfo>, n: int)
    requires
        a.len() == c.len(),
        n <= a.len(),
        forall|k: int| 0 <= k < a.len() ==> same_record(#[trigger] a[k], c[k]),
    ensures
        max_channels_upto(a, n) == max_channels_upto(c, n),
    decreases n,
{
    if n > 0 {
        lemma_max_kept(a, c, n - 1);
        lemma_keys_kept(a, c, n - 1, n - 1);
    }
}

/// Every device carries the channel its key and position give it.
pub open spec fn channels_assigned(devs: Seq<MemoryInfo>) -> bool {
    forall|i: int|
        0 <= i < devs.len() ==> {
            let m = #[trigger] devs[i];
            &&& m.channel_index == Some(channel_of(devs, i) as usize)
            &&& m.channel_name is Some
            &&& m.channel_name.unwrap()@ == channel_label(channel_of(devs, i), max_channels(devs) <= 26)
        }
}

/// The processor record after cache sizes and count fallbacks: an unknown
/// thread count takes the host's parallelism when known, and an unknown core
/// count half the threads, at least one.
pub open spec fn cpu_final(
    c: CpuInfo,
    b: Seq<u8>,
    o: int,
    entries: Seq<(u16, u32, u8, u16)>,
    parallelism: Option<u32>,
) -> bool {
    let t0 = count_byte(byte_at(b, o + 0x25));
    let th = if t0 == 0 {
        match parallelism {
            Some(n) => n,
            None => 0,
        }
    } else {
        t0
    };
    let c0 = count_byte(byte_at(b, o + 0x23));
    &&& c.manufacturer@ == field_text(b, o, 0x07)
    &&& c.name@ == field_text(b, o, 0x10)
    &&& c.socket@ == field_text(b, o, 0x04)
    &&& c.l1_handle == le16(b, o + 0x1A)
    &&& c.l2_handle == le16(b, o + 0x1C)
    &&& c.l3_handle == le16(b, o + 0x1E)
    &&& c.l1_kb == handle_kb(entries, c.l1_handle)
    &&& c.l2_kb == handle_kb(entries, c.l2_handle)
    &&& c.l3_kb == handle_kb(entries, c.l3_handle)
    &&& c.threads == th
    &&& c.cores == if c0 == 0 && th > 0 {
        if th / 2 > 1 {
            th / 2
        } else {
            1
        }
    } else {
        c0
    }
}

/// Reads the host description out of a raw SMBIOS table. `parallelism` is
/// the host's thread count, if known, for a processor record without one.
pub fn collect_system_info(buf: &[u8], parallelism: Option<u32>) -> (r: SystemInfo)
    requires
        buf@.len() + 256 <= usize::MAX,
    ensures
        ({
            let b = buf@;
            let w = walk_from(b, 0);
            let devs = all_of_type(b, w, 17);
            &&& (r.board is Some <==> first_of_type(b, w, 2) is Some)
            &&& (r.board matches Some(bi) ==> board_at(bi, b, first_of_type(b, w, 2).unwrap()))
            &&& (r.cpu is Some <==> first_of_type(b, w, 4) is Some)
            &&& (r.cpu matches Some(c) ==> cpu_final(
                c,
                b,
                first_of_type(b, w, 4).unwrap(),
                cache_entries(b, w),
                parallelism,
            ))
            &&& r.memory_array_slots == first_array_slots(b, w)
            &&& r.memory_devices@.len() == devs.len()
            &&& (forall|k: int|
                0 <= k < devs.len() ==> device_matches(#[trigger] r.memory_devices@[k], b, devs[k]))
            &&& channels_assigned(r.memory_devices@)
            &&& !r.hide_serials
        }),
{
    let (mut sys, caches) = walk_table(buf);
    apply_cache_handles(&mut sys, &caches);
    match &mut sys.cpu {
        Some(cpu) => {
            if cpu.threads == 0 {
                match parallelism {
                    Some(n) => {
                        cpu.threads = n;
                    },
                    None => {},
                }
            }
            if cpu.cores == 0 && cpu.threads > 0 {
                let half = cpu.threads / 2;
                cpu.cores = if half > 1 { half } else { 1 };
            }
        },
        None => {},
    }
    let ghost before = sys.memory_devices@;
    assign_memory_channels(&mut sys);
    proof {
        let after = sys.memory_devices@;
        assert forall|k: int| 0 <= k < after.len() implies same_record(#[trigger] after[k], before[k]) by {}
        lemma_max_kept(after, before, after.len() as int);
        assert forall|i: int| 0 <= i < after.len() implies channel_of(after, i) == channel_of(before, i) by {
            lemma_keys_kept(after, before, i, i);
        }
        let b = buf@;
        let devs = all_of_type(b, walk_from(b, 0), 17);
        assert forall|k: int| 0 <= k < devs.len() implies device_matches(#[trigger] after[k], b, devs[k]) by {
            assert(same_record(after[k], before[k]));
            assert(device_matches(before[k], b, devs[k]));
        }
    }
    sys
}

/// The name of a device's channel; a device without one counts as channel 0.
pub open spec fn device_channel(m: MemoryInfo) -> Seq<char> {
    match m.channel_name {
        Some(s) => s@,
        None => channel_label(0, false),
    }
}

/// Whether no device before `i` is in device `i`'s channel.
pub open spec fn opens_channel(devs: Seq<MemoryInfo>, i: int) -> bool {
    forall|j: int| 0 <= j < i ==> device_channel(#[trigger] devs[j]) != device_channel(devs[i])
}

/// The first device of each channel among the first `n`, in order.
pub open spec fn channel_heads(devs: Seq<MemoryInfo>, n: int) -> Seq<int>
    decreases n,
{
    if n <= 0 {
        Seq::empty()
    } else {
        channel_heads(devs, n - 1) + if opens_channel(devs, n - 1) {
            seq![n - 1]
        } else {
            Seq::empty()
        }
    }
}

/// The devices among the first `n` whose channel is named `name`, in order.
pub open spec fn channel_members(devs: Seq<MemoryInfo>, name: Seq<char>, n: int) -> Seq<usize>
    decreases n,
{
    if n <= 0 {
        Seq::empty()
    } else {
        channel_members(devs, name, n - 1) + if device_channel(devs[n - 1]) == name {
            seq![(n - 1) as usize]
        } else {
            Seq::empty()
        }
    }
}

/// The devices of one channel, by index into `memory_devices`.
#[derive(Debug)]
pub struct ChannelSlots {
    pub name: String,
    pub devices: Vec<usize>,
}

/// Devices counted among the first `n` that hold a module.
pub open spec fn populated_upto(devs: Seq<MemoryInfo>, n: int) -> nat
    decreases n,
{
    if n <= 0 {
        0
    } else {
        populated_upto(devs, n - 1) + if devs[n - 1].populated {
            1nat
        } else {
            0nat
        }
    }
}

/// Whether some device of the channel named `name` holds a module.
pub open spec fn channel_populated(devs: Seq<MemoryInfo>, name: Seq<char>) -> bool {
    exists|i: int| 0 <= i < devs.len() && device_channel(#[trigger] devs[i]) == name && devs[i].populated
}

/// Among the first `k` channel heads, those whose channel holds a module.
pub open spec fn populated_heads(devs: Seq<MemoryInfo>, heads: Seq<int>, k: int) -> nat
    decreases k,
{
    if k <= 0 {
        0
    } else {
        populated_heads(devs, heads, k - 1) + if channel_populated(devs, device_channel(devs[heads[k - 1]])) {
            1nat
        } else {
            0nat
        }
    }
}

fn device_channel_name(m: &MemoryInfo) -> (r: String)
    ensures
        r@ == device_channel(*m),
{
    match &m.channel_name {
        Some(s) => s.clone(),
        None => channel_name(0, false),
    }
}

impl SystemInfo {
    /// The channels of the memory devices in order of first appearance, each
    /// with its devices in table order.
    fn channels_in_table_order(&self) -> (r: Vec<ChannelSlots>)
        ensures
            r@.len() == channel_heads(self.memory_devices@, self.memory_devices@.len() as int).len(),
            forall|k: int|
                0 <= k < r@.len() ==> {
                    let devs = self.memory_devices@;
                    let h = channel_heads(devs, devs.len() as int)[k];
                    &&& (#[trigger] r@[k]).name@ == device_channel(devs[h])
                    &&& r@[k].devices@ == channel_members(devs, device_channel(devs[h]), devs.len() as int)
                },
    {
        let ghost devs = self.memory_devices@;
        let n = self.memory_devices.len();
        let mut names: Vec<String> = Vec::new();
        let mut i: usize = 0;
        while i < n
            invariant
                devs == self.memory_devices@,
                n == devs.len(),
                i <= n,
                names@.len() == i,
                forall|k: int| 0 <= k < i ==> (#[trigger] names@[k])@ == device_channel(devs[k]),
            decreases n - i,
        {
            names.push(device_channel_name(&self.memory_devices[i]));
            i = i + 1;
        }
        let mut heads: Vec<usize> = Vec::new();
        let mut i: usize = 0;
        while i < n
            invariant
                devs == self.memory_devices@,
                n == devs.len(),
                names@.len() == n,
                forall|k: int| 0 <= k < n ==> (#[trigger] names@[k])@ == device_channel(devs[k]),
                i <= n,
                heads@.len() == channel_heads(devs, i as int).len(),
                forall|k: int| 0 <= k < heads@.len() ==> #[trigger] heads@[k] as int == channel_heads(devs, i as int)[k],
                forall|k: int| 0 <= k < heads@.len() ==> heads@[k] < i,
            decreases n - i,
        {
            let mut fresh = true;
            let mut j: usize = 0;
            while j < i
                invariant
                    n == devs.len(),
                    names@.len() == n,
                    forall|k: int| 0 <= k < n ==> (#[trigger] names@[k])@ == device_channel(devs[k]),
                    i < n,
                    j <= i,
                    fresh == forall|t: int| 0 <= t < j ==> device_channel(#[trigger] devs[t]) != device_channel(devs[i as int]),
                decreases i - j,
            {
                if names[j] == names[i] {
                    fresh = false;
                }
                j = j + 1;
            }
            let ghost before = heads@;
            if fresh {
                heads.push(i);
            }
            proof {
                assert(fresh == opens_channel(devs, i as int));
                let hs = channel_heads(devs, i as int + 1);
                assert forall|k: int| 0 <= k < heads@.len() implies #[trigger] heads@[k] as int == hs[k] by {
                    if k < before.len() {
                        assert(heads@[k] == before[k]);
                    }
                }
            }
            i = i + 1;
        }
        let mut r: Vec<ChannelSlots> = Vec::new();
        let mut k: usize = 0;
        let ghost hs = channel_heads(devs, n as int);
        while k < heads.len()
            invariant
                devs == self.memory_devices@,
                n == devs.len(),
                names@.len() == n,
                forall|q: int| 0 <= q < n ==> (#[trigger] names@[q])@ == device_channel(devs[q]),
                hs == channel_heads(devs, n as int),
                heads@.len() == hs.len(),
                forall|q: int| 0 <= q < heads@.len() ==> #[trigger] heads@[q] as int == hs[q],
                forall|q: int| 0 <= q < heads@.len() ==> heads@[q] < n,
                k <= heads@.len(),
                r@.len() == k,
                forall|q: int|
                    0 <= q < k ==> {
                        &&& (#[trigger] r@[q]).name@ == device_channel(devs[hs[q]])
                        &&& r@[q].devices@ == channel_members(devs, device_channel(devs[hs[q]]), n as int)
                    },
            decreases heads@.len() - k,
        {
            let h = heads[k];
            let name = names[h].clone();
            let mut members: Vec<usize> = Vec::new();
            let mut i: usize = 0;
            while i < n
                invariant
                    n == devs.len(),
                    names@.len() == n,
                    forall|q: int| 0 <= q < n ==> (#[trigger] names@[q])@ == device_channel(devs[q]),
                    i <= n,
                    name@ == device_channel(devs[h as int]),
                    members@ == channel_members(devs, name@, i as int),
                decreases n - i,
            {
                if names[i] == name {
                    members.push(i);
                }
                i = i + 1;
            }
            r.push(ChannelSlots { name, devices: members });
            k = k + 1;
        }
        r
    }

    /// The channels of the memory devices ordered by name, each with its
    /// devices in table order.
    pub fn memory_channels(&self) -> (r: Vec<ChannelSlots>)
        ensures
            slot_names(r@) == names_by_order(head_names(self.memory_devices@)),
            sorted_by_name(r@),
            forall|j: int|
                0 <= j < r@.len() ==> (#[trigger] r@[j]).devices@ == channel_members(
                    self.memory_devices@,
                    r@[j].name@,
                    self.memory_devices@.len() as int,
                ),
    {
        let ghost devs = self.memory_devices@;
        let ghost ns = head_names(devs);
        proof {
            lemma_heads_distinct(devs, devs.len() as int);
        }
        let mut groups = self.channels_in_table_order();
        let total = groups.len();
        let mut out: Vec<ChannelSlots> = Vec::new();
        assert(ns.subrange(total as int, total as int) =~= Seq::<Seq<char>>::empty());
        while groups.len() > 0
            invariant
                devs == self.memory_devices@,
                ns == head_names(devs),
                total == ns.len(),
                forall|a: int, b: int| 0 <= a < b < ns.len() ==> #[trigger] ns[a] != #[trigger] ns[b],
                groups@.len() <= total,
                forall|q: int|
                    0 <= q < groups@.len() ==> {
                        &&& (#[trigger] groups@[q]).name@ == ns[q]
                        &&& groups@[q].devices@ == channel_members(devs, ns[q], devs.len() as int)
                    },
                slot_names(out@) == names_by_order(ns.subrange(groups@.len() as int, total as int)),
                sorted_by_name(out@),
                forall|j: int|
                    0 <= j < out@.len() ==> (#[trigger] out@[j]).devices@ == channel_members(
                        devs,
                        out@[j].name@,
                        devs.len() as int,
                    ),
            decreases groups@.len(),
        {
            let ghost m = groups@.len() - 1;
            let ghost rest = ns.subrange(m + 1, total as int);
            let g = groups.pop().unwrap();
            proof {
                assert(g.name@ == ns[m]);
                lemma_order_members(rest);
                assert forall|j: int| 0 <= j < out@.len() implies (#[trigger] out@[j]).name@ != g.name@ by {
                    assert(slot_names(out@)[j] == out@[j].name@);
                    assert(names_by_order(rest).contains(out@[j].name@));
                    let t = choose|t: int| 0 <= t < rest.len() && rest[t] == out@[j].name@;
                    assert(rest[t] == ns[m + 1 + t]);
                }
            }
            let ghost before = out@;
            let p = insert_by_name(&mut out, g);
            proof {
                lemma_place_at(slot_names(before), ns[m], p as int);
                assert(slot_names(out@) =~= slot_names(before).insert(p as int, ns[m]));
                let now = ns.subrange(m, total as int);
                assert(now.drop_first() =~= rest);
                assert(now[0] == ns[m]);
                assert forall|j: int| 0 <= j < out@.len() implies (#[trigger] out@[j]).devices@
                    == channel_members(devs, out@[j].name@, devs.len() as int) by {
                    if j < p {
                        assert(out@[j] == before[j]);
                    } else if j > p {
                        assert(out@[j] == before[j - 1]);
                    }
                }
            }
        }
        assert(ns.subrange(0, total as int) =~= ns);
        out
    }

    /// The number of channels seen, populated or not.
    pub fn total_channels(&self) -> (r: usize)
        ensures
            r == channel_heads(self.memory_devices@, self.memory_devices@.len() as int).len(),
    {
        self.channels_in_table_order().len()
    }

    /// The number of channels with at least one module.
    pub fn populated_channels(&self) -> (r: usize)
        ensures
            ({
                let devs = self.memory_devices@;
                let hs = channel_heads(devs, devs.len() as int);
                r == populated_heads(devs, hs, hs.len() as int)
            }),
    {
        let ghost devs = self.memory_devices@;
        let ghost hs = channel_heads(devs, devs.len() as int);
        let chans = self.channels_in_table_order();
        let nd = self.memory_devices.len();
        let mut count: usize = 0;
        let mut k: usize = 0;
        while k < chans.len()
            invariant
                devs == self.memory_devices@,
                nd == devs.len(),
                hs == channel_heads(devs, devs.len() as int),
                chans@.len() == hs.len(),
                forall|q: int|
                    0 <= q < chans@.len() ==> {
                        &&& (#[trigger] chans@[q]).name@ == device_channel(devs[hs[q]])
                        &&& chans@[q].devices@ == channel_members(devs, device_channel(devs[hs[q]]), devs.len() as int)
                    },
                k <= chans@.len(),
                count == populated_heads(devs, hs, k as int),
                count <= k,
            decreases chans@.len() - k,
        {
            let members = &chans[k].devices;
            proof {
                lemma_members(devs, device_channel(devs[hs[k as int]]), devs.len() as int);
            }
            let mut any = false;
            let mut t: usize = 0;
            while t < members.len()
                invariant
                    devs == self.memory_devices@,
                    members@ == channel_members(devs, device_channel(devs[hs[k as int]]), devs.len() as int),
                    t <= members@.len(),
                    forall|q: int| 0 <= q < members@.len() ==> #[trigger] members@[q] < devs.len(),
                    any == exists|q: int| 0 <= q < t && devs[#[trigger] members@[q] as int].populated,
                decreases members@.len() - t,
            {
                if self.memory_devices[members[t]].populated {
                    any = true;
                }
                t = t + 1;
            }
            if any {
                count = count + 1;
            }
            k = k + 1;
        }
        count
    }

    /// The number of device records that hold a module.
    pub fn populated_slots(&self) -> (r: usize)
        ensures
            r == populated_upto(self.memory_devices@, self.memory_devices@.len() as int),
    {
        let mut count: usize = 0;
        let mut i: usize = 0;
        while i < self.memory_devices.len()
            invariant
                i <= self.memory_devices@.len(),
                count == populated_upto(self.memory_devices@, i as int),
                count <= i,
            decreases self.memory_devices@.len() - i,
        {
            if self.memory_devices[i].populated {
                count = count + 1;
            }
            i = i + 1;
        }
        count
    }

    /// The number of device records.
    pub fn total_slots(&self) -> (r: usize)
        ensures
            r == self.memory_devices@.len(),
    {
        self.memory_devices.len()
    }
}

/// The members of a channel are exactly the devices of that name.
proof fn lemma_members(devs: Seq<MemoryInfo>, name: Seq<char>, n: int)
    requires
        0 <= n <= devs.len(),
        devs.len() <= usize::MAX,
    ensures
        forall|q: int| 0 <= q < channel_members(devs, name, n).len() ==> {
            let i = #[trigger] channel_members(devs, name, n)[q] as int;
            0 <= i < n && device_channel(devs[i]) == name
        },
        forall|i: int| 0 <= i < n && device_channel(devs[i]) == name ==> exists|q: int|
            0 <= q < channel_members(devs, name, n).len() && #[trigger] channel_members(devs, name, n)[q] as int == i,
    decreases n,
{
    if n > 0 {
        lemma_members(devs, name, n - 1);
        let pre = channel_members(devs, name, n - 1);
        let cur = channel_members(devs, name, n);
        assert forall|q: int| 0 <= q < cur.len() implies {
            let i = #[trigger] cur[q] as int;
            0 <= i < n && device_channel(devs[i]) == name
        } by {
            if q < pre.len() {
                assert(cur[q] == pre[q]);
            }
        }
        assert forall|i: int| 0 <= i < n && device_channel(devs[i]) == name implies exists|q: int|
            0 <= q < cur.len() && #[trigger] cur[q] as int == i by {
            if i < n - 1 {
                let q = choose|q: int| 0 <= q < pre.len() && #[trigger] pre[q] as int == i;
                assert(cur[q] == pre[q]);
            } else {
                assert(cur[pre.len() as int] as int == i);
            }
        }
    }
}


/// The first nonzero speed word at `field` among the structures `offs`, or 0.
pub open spec fn first_speed(b: Seq<u8>, offs: Seq<int>, field: int) -> u16
    decreases offs.len(),
{
    if offs.len() == 0 {
        0
    } else {
        let p = first_speed(b, offs.drop_last(), field);
        if p != 0 {
            p
        } else {
            le16(b, offs.last() + field)
        }
    }
}

/// The memory speed in MT/s of the first memory device that gives one: the
/// configured speed, or the rated one; 0 when none does.
pub fn hardware_ram_speed(buf: &[u8], configured: bool) -> (r: u64)
    requires
        buf@.len() + 256 <= usize::MAX,
    ensures
        r == first_speed(
            buf@,
            all_of_type(buf@, walk_from(buf@, 0), 17),
            if configured { 0x20int } else { 0x15int },
        ) as u64,
{
    let (sys, _caches) = walk_table(buf);
    let ghost offs = all_of_type(buf@, walk_from(buf@, 0), 17);
    let ghost field: int = if configured { 0x20int } else { 0x15int };
    let mut speed: u16 = 0;
    let mut i: usize = 0;
    while i < sys.memory_devices.len()
        invariant
            sys.memory_devices@.len() == offs.len(),
            forall|k: int| 0 <= k < offs.len() ==> device_matches(#[trigger] sys.memory_devices@[k], buf@, offs[k]),
            field == (if configured { 0x20int } else { 0x15int }),
            i <= offs.len(),
            speed == first_speed(buf@, offs.subrange(0, i as int), field),
        decreases offs.len() - i,
    {
        proof {
            let pre = offs.subrange(0, i as int + 1);
            assert(pre.drop_last() =~= offs.subrange(0, i as int));
            assert(device_matches(sys.memory_devices@[i as int], buf@, offs[i as int]));
        }
        if speed == 0 {
            let m = &sys.memory_devices[i];
            speed = if configured { m.configured_speed } else { m.speed };
        }
        i = i + 1;
    }
    assert(offs.subrange(0, offs.len() as int) =~= offs);
    speed as u64
}

/// The host's memory totals, in bytes.
#[derive(Debug)]
pub struct SysInfo {
    pub totalram: usize,
    pub freeram: usize,
    pub sharedram: usize,
    pub bufferram: usize,
    pub totalswap: usize,
    pub freeswap: usize,
    pub procs: u16,
    pub totalhigh: usize,
    pub freehigh: usize,
    pub mem_unit: u32,
}


/// The names of channel lists, in order.
pub open spec fn slot_names(v: Seq<ChannelSlots>) -> Seq<Seq<char>> {
    v.map_values(|c: ChannelSlots| c.name@)
}

/// The channel names in order of first appearance.
pub open spec fn head_names(devs: Seq<MemoryInfo>) -> Seq<Seq<char>> {
    channel_heads(devs, devs.len() as int).map_values(|h: int| device_channel(devs[h]))
}

/// `x` placed before the first name of `v` that does not come before it.
pub open spec fn place_name(v: Seq<Seq<char>>, x: Seq<char>) -> Seq<Seq<char>>
    decreases v.len(),
{
    if v.len() == 0 {
        seq![x]
    } else if name_lt(v[0], x) {
        seq![v[0]] + place_name(v.drop_first(), x)
    } else {
        seq![x] + v
    }
}

/// Names placed one by one, the last first: insertion sort by name.
pub open spec fn names_by_order(ns: Seq<Seq<char>>) -> Seq<Seq<char>>
    decreases ns.len(),
{
    if ns.len() == 0 {
        Seq::empty()
    } else {
        place_name(names_by_order(ns.drop_first()), ns[0])
    }
}

proof fn lemma_place_at(v: Seq<Seq<char>>, x: Seq<char>, p: int)
    requires
        0 <= p <= v.len(),
        forall|j: int| 0 <= j < p ==> name_lt(#[trigger] v[j], x),
        p < v.len() ==> !name_lt(v[p], x),
    ensures
        place_name(v, x) == v.insert(p, x),
    decreases v.len(),
{
    if v.len() > 0 && p > 0 {
        let w = v.drop_first();
        assert forall|j: int| 0 <= j < p - 1 implies name_lt(#[trigger] w[j], x) by {
            assert(w[j] == v[j + 1]);
        }
        lemma_place_at(w, x, p - 1);
        assert(seq![v[0]] + w.insert(p - 1, x) =~= v.insert(p, x));
    } else if v.len() > 0 {
        assert(seq![x] + v =~= v.insert(0, x));
    } else {
        assert(seq![x] =~= v.insert(0, x));
    }
}

proof fn lemma_place_members(v: Seq<Seq<char>>, x: Seq<char>)
    ensures
        forall|y: Seq<char>| #[trigger] place_name(v, x).contains(y) <==> (v.contains(y) || y == x),
    decreases v.len(),
{
    if v.len() > 0 {
        lemma_place_members(v.drop_first(), x);
        let r = place_name(v, x);
        assert forall|y: Seq<char>| #[trigger] r.contains(y) <==> (v.contains(y) || y == x) by {
            if name_lt(v[0], x) {
                let t = place_name(v.drop_first(), x);
                assert(r == seq![v[0]] + t);
                if r.contains(y) {
                    let i = choose|i: int| 0 <= i < r.len() && r[i] == y;
                    if i > 0 {
                        assert(t[i - 1] == y);
                        assert(t.contains(y));
                        if v.drop_first().contains(y) {
                            let k = choose|k: int| 0 <= k < v.drop_first().len() && v.drop_first()[k] == y;
                            assert(v[k + 1] == y);
                        }
                    } else {
                        assert(v[0] == y);
                    }
                }
                if v.contains(y) {
                    let k = choose|k: int| 0 <= k < v.len() && v[k] == y;
                    if k == 0 {
                        assert(r[0] == y);
                    } else {
                        assert(v.drop_first()[k - 1] == y);
                        assert(t.contains(y));
                        let i = choose|i: int| 0 <= i < t.len() && t[i] == y;
                        assert(r[i + 1] == y);
                    }
                }
                if y == x {
                    assert(t.contains(x));
                    let i = choose|i: int| 0 <= i < t.len() && t[i] == x;
                    assert(r[i + 1] == y);
                }
            } else {
                assert(r == seq![x] + v);
                if r.contains(y) {
                    let i = choose|i: int| 0 <= i < r.len() && r[i] == y;
                    if i > 0 {
                        assert(v[i - 1] == y);
                    }
                }
                if v.contains(y) {
                    let k = choose|k: int| 0 <= k < v.len() && v[k] == y;
                    assert(r[k + 1] == y);
                }
                if y == x {
                    assert(r[0] == y);
                }
            }
        }
    } else {
        assert forall|y: Seq<char>| #[trigger] place_name(v, x).contains(y) <==> (v.contains(y) || y
            == x) by {
            if place_name(v, x).contains(y) {
                let i = choose|i: int| 0 <= i < place_name(v, x).len() && place_name(v, x)[i] == y;
            }
            if y == x {
                assert(place_name(v, x)[0] == y);
            }
        }
    }
}

/// Insertion sort keeps exactly the names it was given.
proof fn lemma_order_members(ns: Seq<Seq<char>>)
    ensures
        forall|y: Seq<char>| #[trigger] names_by_order(ns).contains(y) ==> ns.contains(y),
    decreases ns.len(),
{
    if ns.len() > 0 {
        lemma_order_members(ns.drop_first());
        lemma_place_members(names_by_order(ns.drop_first()), ns[0]);
        assert forall|y: Seq<char>| #[trigger] names_by_order(ns).contains(y) implies ns.contains(y) by {
            if y != ns[0] {
                assert(names_by_order(ns.drop_first()).contains(y));
                assert(ns.drop_first().contains(y));
                let k = choose|k: int| 0 <= k < ns.drop_first().len() && ns.drop_first()[k] == y;
                assert(ns[k + 1] == y);
            } else {
                assert(ns[0] == y);
            }
        }
    }
}

/// The channel lists in strictly ascending name order.
pub open spec fn sorted_by_name(v: Seq<ChannelSlots>) -> bool {
    forall|j: int| 0 <= j < v.len() - 1 ==> name_lt((#[trigger] v[j]).name@, v[j + 1].name@)
}

/// Inserts a channel with a new name where its name keeps the list sorted:
/// before the first channel whose name does not come before it.
fn insert_by_name(out: &mut Vec<ChannelSlots>, g: ChannelSlots) -> (p: usize)
    requires
        sorted_by_name(old(out)@),
        forall|j: int| 0 <= j < old(out)@.len() ==> (#[trigger] old(out)@[j]).name@ != g.name@,
    ensures
        p <= old(out)@.len(),
        final(out)@ == old(out)@.insert(p as int, g),
        sorted_by_name(final(out)@),
        forall|j: int| 0 <= j < p ==> name_lt((#[trigger] old(out)@[j]).name@, g.name@),
        p < old(out)@.len() ==> !name_lt(old(out)@[p as int].name@, g.name@),
{
    let ghost x = g.name@;
    let mut p: usize = 0;
    while p < out.len() && name_less(&out[p].name, &g.name)
        invariant
            p <= out@.len(),
            forall|j: int| 0 <= j < p ==> name_lt((#[trigger] out@[j]).name@, x),
            g.name@ == x,
        decreases out@.len() - p,
    {
        p = p + 1;
    }
    proof {
        if p < out@.len() {
            lemma_name_lt_total(out@[p as int].name@, x);
        }
    }
    let ghost before = out@;
    out.insert(p, g);
    proof {
        assert forall|j: int| 0 <= j < out@.len() - 1 implies name_lt(
            (#[trigger] out@[j]).name@,
            out@[j + 1].name@,
        ) by {
            if j + 1 < p {
                assert(out@[j] == before[j] && out@[j + 1] == before[j + 1]);
            } else if j + 1 == p {
                assert(out@[j] == before[j]);
            } else if j == p {
                assert(out@[j + 1] == before[j]);
            } else {
                assert(out@[j] == before[j - 1] && out@[j + 1] == before[j]);
            }
        }
    }
    p
}

/// Byte-wise lexicographic order, the order of `str`.
pub open spec fn bytes_lt(a: Seq<u8>, b: Seq<u8>) -> bool
    decreases a.len(),
{
    if a.len() == 0 {
        b.len() > 0
    } else if b.len() == 0 {
        false
    } else if a[0] != b[0] {
        a[0] < b[0]
    } else {
        bytes_lt(a.drop_first(), b.drop_first())
    }
}

/// Channel names in the order of their UTF-8 bytes.
pub open spec fn name_lt(a: Seq<char>, b: Seq<char>) -> bool {
    bytes_lt(vstd::utf8::encode_utf8(a), vstd::utf8::encode_utf8(b))
}

proof fn lemma_bytes_lt_total(a: Seq<u8>, b: Seq<u8>)
    requires
        a != b,
    ensures
        bytes_lt(a, b) || bytes_lt(b, a),
    decreases a.len(),
{
    if a.len() > 0 && b.len() > 0 && a[0] == b[0] {
        if a.drop_first() == b.drop_first() {
            assert(a =~= seq![a[0]] + a.drop_first());
            assert(b =~= seq![b[0]] + b.drop_first());
        }
        lemma_bytes_lt_total(a.drop_first(), b.drop_first());
    } else if a.len() == 0 && b.len() == 0 {
        assert(a =~= b);
    }
}

proof fn lemma_name_lt_total(a: Seq<char>, b: Seq<char>)
    requires
        a != b,
    ensures
        name_lt(a, b) || name_lt(b, a),
{
    vstd::utf8::encode_utf8_decode_utf8(a);
    vstd::utf8::encode_utf8_decode_utf8(b);
    lemma_bytes_lt_total(vstd::utf8::encode_utf8(a), vstd::utf8::encode_utf8(b));
}

fn bytes_less(a: &[u8], b: &[u8]) -> (r: bool)
    ensures
        r == bytes_lt(a@, b@),
{
    let mut i: usize = 0;
    proof {
        assert(a@.subrange(0, a@.len() as int) =~= a@);
        assert(b@.subrange(0, b@.len() as int) =~= b@);
    }
    while i < a.len() && i < b.len() && a[i] == b[i]
        invariant
            i <= a@.len(),
            i <= b@.len(),
            bytes_lt(a@, b@) == bytes_lt(a@.subrange(i as int, a@.len() as int), b@.subrange(
                i as int,
                b@.len() as int,
            )),
        decreases a@.len() - i,
    {
        proof {
            let sa = a@.subrange(i as int, a@.len() as int);
            let sb = b@.subrange(i as int, b@.len() as int);
            assert(sa.drop_first() =~= a@.subrange(i as int + 1, a@.len() as int));
            assert(sb.drop_first() =~= b@.subrange(i as int + 1, b@.len() as int));
        }
        i = i + 1;
    }
    if i == a.len() {
        i < b.len()
    } else if i == b.len() {
        false
    } else {
        a[i] < b[i]
    }
}

fn name_less(a: &String, b: &String) -> (r: bool)
    ensures
        r == name_lt(a@, b@),
{
    bytes_less(a.as_str().as_bytes(), b.as_str().as_bytes())
}

proof fn lemma_heads_shape(devs: Seq<MemoryInfo>, n: int)
    requires
        0 <= n <= devs.len(),
    ensures
        forall|k: int|
            0 <= k < channel_heads(devs, n).len() ==> 0 <= #[trigger] channel_heads(devs, n)[k] < n
                && opens_channel(devs, channel_heads(devs, n)[k]),
        forall|a: int, b: int|
            0 <= a < b < channel_heads(devs, n).len() ==> #[trigger] channel_heads(devs, n)[a]
                < #[trigger] channel_heads(devs, n)[b],
    decreases n,
{
    if n > 0 {
        lemma_heads_shape(devs, n - 1);
        let pre = channel_heads(devs, n - 1);
        let cur = channel_heads(devs, n);
        assert forall|k: int| 0 <= k < cur.len() implies 0 <= #[trigger] cur[k] < n && opens_channel(devs, cur[k]) by {
            if k < pre.len() {
                assert(cur[k] == pre[k]);
            }
        }
        assert forall|a: int, b: int| 0 <= a < b < cur.len() implies #[trigger] cur[a] < #[trigger] cur[b] by {
            if b < pre.len() {
                assert(cur[a] == pre[a] && cur[b] == pre[b]);
            } else {
                assert(cur[a] == pre[a]);
            }
        }
    }
}

/// Channel names in order of first appearance are distinct.
proof fn lemma_heads_distinct(devs: Seq<MemoryInfo>, n: int)
    requires
        n == devs.len(),
    ensures
        forall|a: int, b: int|
            0 <= a < b < head_names(devs).len() ==> #[trigger] head_names(devs)[a]
                != #[trigger] head_names(devs)[b],
{
    lemma_heads_shape(devs, n);
    let hs = channel_heads(devs, n);
    let ns = head_names(devs);
    assert forall|a: int, b: int| 0 <= a < b < ns.len() implies #[trigger] ns[a] != #[trigger] ns[b] by {
        assert(hs[a] < hs[b]);
        assert(opens_channel(devs, hs[b]));
        assert(ns[a] == device_channel(devs[hs[a]]));
        assert(ns[b] == device_channel(devs[hs[b]]));
    }
}

} // verus!
