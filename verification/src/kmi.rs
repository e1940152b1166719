//! Kernel modules: reading a module's ELF image and working out how to
//! lay it out in memory (where it goes, what to copy, what to relocate,
//! how to protect it and where it starts). The caller allocates the
//! memory and performs the copies and writes.

use vstd::prelude::*;

verus! {

/// A program header, as far as loading needs it.
#[derive(Clone, Copy, Debug, PartialEq, Eq, Structural)]
pub struct Segment {
    /// Segment type (1: loadable).
    pub p_type: u32,
    /// Flags (bit 0: executable).
    pub p_flags: u32,
    /// Offset of its bytes in the file.
    pub p_offset: u64,
    /// Virtual address it is linked at.
    pub p_vaddr: u64,
    /// Bytes in the file.
    pub p_filesz: u64,
    /// Bytes in memory.
    pub p_memsz: u64,
}

/// A relocation with addend.
#[derive(Clone, Copy, Debug, PartialEq, Eq, Structural)]
pub struct Rela {
    /// Where to write, relative to the image.
    pub r_offset: u64,
    /// Relocation type.
    pub r_type: u32,
    /// Addend.
    pub r_addend: i64,
}

/// Segment type of a loadable segment.
pub const PT_LOAD: u32 = 1;
/// Section type of relocations with addends.
pub const SHT_RELA: u32 = 4;
/// Relocation: image base plus addend.
pub const R_X86_64_RELATIVE: u32 = 8;
/// Relocation: symbol plus addend (the image base for a local symbol).
pub const R_X86_64_64: u32 = 1;

/// The program headers that the `elf` crate reads from `data` (none when
/// there is no table), or `None` when its file header does not parse.
pub uninterp spec fn elf_segments_of(data: Seq<u8>) -> Option<Seq<Segment>>;

/// The text of the error that parsing the file header of `data` gives.
pub uninterp spec fn elf_parse_error(data: Seq<u8>) -> Seq<char>;

/// For each section header of `data`: its type, and its relocations when
/// the section reads as relocations with addends.
pub uninterp spec fn elf_sections_of(data: Seq<u8>) -> Seq<(u32, Option<Vec<Rela>>)>;

/// The symbols of `data` (none without a symbol table): each name, when
/// the string table yields it, with the symbol's value.
pub uninterp spec fn elf_symbols_of(data: Seq<u8>) -> Seq<(Option<String>, u64)>;

/// The entry point in the file header of `data`.
pub uninterp spec fn elf_entry_of(data: Seq<u8>) -> u64;

/// Whether `c` has Unicode's White_Space property (the white space that
/// `str::trim` removes): U+0009 to U+000D, U+0020, U+0085, U+00A0, U+1680,
/// U+2000 to U+200A, U+2028, U+2029, U+202F, U+205F and U+3000.
pub open spec fn is_white_space(c: char) -> bool {
    let x = c as u32;
    ||| 0x9 <= x <= 0xd
    ||| x == 0x20 || x == 0x85 || x == 0xa0 || x == 0x1680
    ||| 0x2000 <= x <= 0x200a
    ||| x == 0x2028 || x == 0x2029 || x == 0x202f || x == 0x205f || x == 0x3000
}

/// `s` without its leading white space.
pub open spec fn trim_start(s: Seq<char>) -> Seq<char>
    decreases s.len(),
{
    if s.len() > 0 && is_white_space(s[0]) { trim_start(s.drop_first()) } else { s }
}

/// `s` without its trailing white space.
pub open spec fn trim_end(s: Seq<char>) -> Seq<char>
    decreases s.len(),
{
    if s.len() > 0 && is_white_space(s.last()) { trim_end(s.drop_last()) } else { s }
}

/// `s` without leading and trailing white space.
pub open spec fn trimmed(s: Seq<char>) -> Seq<char> {
    trim_end(trim_start(s))
}

/// `elf::ElfBytes::minimal_parse` on `data` and, when it succeeds, its
/// program headers (`segments`), each converted; otherwise the parse
/// error's text. The contract names both results.
#[verifier::external_body]
fn read_segments(data: &[u8]) -> (r: Result<Vec<Segment>, String>)
    ensures
        r is Ok <==> elf_segments_of(data@) is Some,
        r matches Ok(v) ==> Some(v@) == elf_segments_of(data@),
        r matches Err(e) ==> e@ == elf_parse_error(data@),
{
    let e = elf::ElfBytes::<elf::endian::NativeEndian>::minimal_parse(data).map_err(|e| e.to_string())?;
    Ok(e.segments().map_or(Vec::new(), |t| t.iter().map(|p| Segment {
        p_type: p.p_type, p_flags: p.p_flags, p_offset: p.p_offset,
        p_vaddr: p.p_vaddr, p_filesz: p.p_filesz, p_memsz: p.p_memsz,
    }).collect()))
}

/// `elf::ElfBytes::section_headers` of the parsed `data` (none when it
/// does not parse), with `section_data_as_relas` of each header converted
/// (`None` where that fails). The contract names the result.
#[verifier::external_body]
fn read_sections(data: &[u8]) -> (r: Vec<(u32, Option<Vec<Rela>>)>)
    ensures
        r@ == elf_sections_of(data@),
{
    match elf::ElfBytes::<elf::endian::NativeEndian>::minimal_parse(data) {
        Ok(e) => e.section_headers().map_or(Vec::new(), |t| t.iter().map(|sh| (sh.sh_type,
            e.section_data_as_relas(&sh).ok().map(|it| it.map(|r| Rela {
                r_offset: r.r_offset, r_type: r.r_type, r_addend: r.r_addend }).collect()))).collect()),
        Err(_) => Vec::new(),
    }
}

/// `elf::ElfBytes::symbol_table` of the parsed `data` (none when it does
/// not parse or has no table): each symbol's name looked up in the string
/// table (`None` where that fails) and its value. The contract names the
/// result.
#[verifier::external_body]
fn read_symbols(data: &[u8]) -> (r: Vec<(Option<String>, u64)>)
    ensures
        r@ == elf_symbols_of(data@),
{
    match elf::ElfBytes::<elf::endian::NativeEndian>::minimal_parse(data).map(|e| e.symbol_table()) {
        Ok(Ok(Some((syms, strtab)))) => syms.iter().map(|s|
            (strtab.get(s.st_name as usize).ok().map(|n| n.to_string()), s.st_value)).collect(),
        _ => Vec::new(),
    }
}

/// The `e_entry` field of the file header that `elf` parses from `data`
/// (0 when it does not parse). The contract names the result.
#[verifier::external_body]
fn read_entry(data: &[u8]) -> (r: u64)
    ensures
        r == elf_entry_of(data@),
{
    elf::ElfBytes::<elf::endian::NativeEndian>::minimal_parse(data).map_or(0, |e| e.ehdr.e_entry)
}

/// `str::trim`: `s` without leading and trailing white space, as
/// [`trimmed`] states it (white space by Unicode's White_Space property,
/// as the method's documentation says).
#[verifier::external_body]
fn trim_name(s: &str) -> (r: &str)
    ensures
        r@ == trimmed(s@),
{
    s.trim()
}

/// The least address at which a loadable segment among the first `n` of
/// `s` is linked (the largest value when there is none below it).
pub open spec fn min_vaddr(s: Seq<Segment>, n: int) -> u64
    decreases n,
{
    if n <= 0 {
        u64::MAX
    } else {
        let m = min_vaddr(s, n - 1);
        let x = s[n - 1];
        if x.p_type == PT_LOAD && x.p_vaddr < m { x.p_vaddr } else { m }
    }
}

/// The largest end of a loadable segment among the first `n` of `s` (0
/// when there is none above it).
pub open spec fn max_vaddr(s: Seq<Segment>, n: int) -> u64
    decreases n,
{
    if n <= 0 {
        0
    } else {
        let m = max_vaddr(s, n - 1);
        let x = s[n - 1];
        if x.p_type == PT_LOAD && x.p_vaddr + x.p_memsz > m { (x.p_vaddr + x.p_memsz) as u64 } else { m }
    }
}

/// Whether the ends of the loadable segments of `s`, rounded up to a page,
/// fit in 64 bits.
pub open spec fn segments_fit(s: Seq<Segment>) -> bool {
    forall|i: int| 0 <= i < s.len() && (#[trigger] s[i]).p_type == PT_LOAD ==> s[i].p_vaddr + s[i].p_memsz + 0xfff <= u64::MAX
}

/// The lowest and highest address of the loadable segments of a module,
/// and the page-aligned range that holds them.
#[derive(Clone, Copy, Debug, PartialEq, Eq, Structural)]
pub struct Span {
    /// The least address a loadable segment is linked at.
    pub min_vaddr: u64,
    /// The largest end of a loadable segment.
    pub max_vaddr: u64,
    /// `min_vaddr` rounded down to a page.
    pub aligned_min: u64,
    /// The size of the page-aligned range.
    pub total_size: u64,
}

/// Why a module cannot be laid out.
#[derive(Clone, Copy, Debug, PartialEq, Eq, Structural)]
pub enum SpanError {
    /// No loadable segment.
    NoLoadSegments,
}

/// `x` rounded down to a page.
pub open spec fn page_floor(x: u64) -> u64 {
    (x - x % 4096) as u64
}

/// `x` rounded up to a page.
pub open spec fn page_ceil(x: u64) -> u64 {
    if x % 4096 == 0 { x } else { (x - x % 4096 + 4096) as u64 }
}

/// Rounding down and up to a page, by masks.
proof fn lemma_page_masks(x: u64)
    requires
        x + 0xfff <= u64::MAX,
    ensures
        x & !0xfffu64 == page_floor(x),
        ((x + 0xfff) as u64) & !0xfffu64 == page_ceil(x),
{
    assert(x & !0xfffu64 == x - x % 4096 && ((x + 0xfff) as u64) & !0xfffu64 == (if x % 4096 == 0 { x as int } else { x - x % 4096 + 4096 })) by (bit_vector)
        requires x + 0xfff <= u64::MAX;
}

/// The range that the loadable segments of `segments` occupy: their least
/// start and largest end, and the page-aligned range around them; an error
/// when there is no loadable segment.
pub fn span_of(segments: &Vec<Segment>) -> (r: Result<Span, SpanError>)
    requires
        segments_fit(segments@),
    ensures
        ({
            let s = segments@;
            let lo = min_vaddr(s, s.len() as int);
            let hi = max_vaddr(s, s.len() as int);
            if lo == u64::MAX {
                r == Err::<Span, SpanError>(SpanError::NoLoadSegments)
            } else {
                r == Ok::<Span, SpanError>(Span {
                    min_vaddr: lo,
                    max_vaddr: hi,
                    aligned_min: page_floor(lo),
                    total_size: (page_ceil(hi) - page_floor(lo)) as u64,
                })
            }
        }),
{
    let mut lo: u64 = u64::MAX;
    let mut hi: u64 = 0;
    let mut i: usize = 0;
    while i < segments.len()
        invariant
            i <= segments@.len(),
            segments_fit(segments@),
            lo == min_vaddr(segments@, i as int),
            hi == max_vaddr(segments@, i as int),
            lo != u64::MAX ==> lo <= hi,
            hi + 0xfff <= u64::MAX,
        decreases segments@.len() - i,
    {
        let p = segments[i];
        if p.p_type == PT_LOAD {
            assert(segments@[i as int].p_type == PT_LOAD);
            let start = p.p_vaddr;
            let end = start + p.p_memsz;
            if start < lo {
                lo = start;
            }
            if end > hi {
                hi = end;
            }
        }
        i = i + 1;
    }
    if lo == u64::MAX {
        return Err(SpanError::NoLoadSegments);
    }
    proof {
        lemma_page_masks(lo);
        lemma_page_masks(hi);
    }
    let aligned_min = lo & !0xfff;
    let aligned_max = (hi + 0xfff) & !0xfff;
    Ok(Span { min_vaddr: lo, max_vaddr: hi, aligned_min, total_size: aligned_max - aligned_min })
}

/// What is known of a module's image before it is placed in memory.
pub struct Prepared {
    /// Its program headers.
    pub segments: Vec<Segment>,
    /// Its section headers' types, with the relocations of each.
    pub sections: Vec<(u32, Option<Vec<Rela>>)>,
    /// Its symbols' names and values.
    pub symbols: Vec<(Option<String>, u64)>,
    /// The entry point of its file header.
    pub e_entry: u64,
    /// The range its loadable segments occupy.
    pub span: Span,
}

/// What [`Module::prepare`] returns for `data`.
pub open spec fn prepared_of(data: Seq<u8>, p: Prepared) -> bool {
    &&& elf_segments_of(data) == Some(p.segments@)
    &&& p.sections@ == elf_sections_of(data)
    &&& p.symbols@ == elf_symbols_of(data)
    &&& p.e_entry == elf_entry_of(data)
    &&& span_of_spec(p.segments@) == Some(p.span)
}

/// The span that [`span_of`] computes, when there is a loadable segment.
pub open spec fn span_of_spec(s: Seq<Segment>) -> Option<Span> {
    let lo = min_vaddr(s, s.len() as int);
    let hi = max_vaddr(s, s.len() as int);
    if lo == u64::MAX {
        None
    } else {
        Some(Span { min_vaddr: lo, max_vaddr: hi, aligned_min: page_floor(lo), total_size: (page_ceil(hi) - page_floor(lo)) as u64 })
    }
}

/// A copy of `len` bytes from offset `src` of the file to address `dst`.
#[derive(Clone, Copy, Debug, PartialEq, Eq, Structural)]
pub struct SegmentCopy {
    /// Destination address.
    pub dst: u64,
    /// Offset in the file.
    pub src: u64,
    /// Number of bytes.
    pub len: u64,
}

/// Where segment `p` goes when the image is placed at `base` (the segment
/// range starting at `aligned_min` maps to `base`), wrapping around.
pub open spec fn placed(base: u64, aligned_min: u64, p: Segment) -> u64 {
    ((base as int + ((p.p_vaddr as int - aligned_min) % 0x1_0000_0000_0000_0000)) % 0x1_0000_0000_0000_0000) as u64
}

/// The copies that place the loadable segments of `s` with file bytes.
pub open spec fn copies_of(s: Seq<Segment>, base: u64, aligned_min: u64) -> Seq<SegmentCopy>
    decreases s.len(),
{
    if s.len() == 0 {
        Seq::empty()
    } else {
        let rest = copies_of(s.drop_last(), base, aligned_min);
        let p = s.last();
        if p.p_type == PT_LOAD && p.p_filesz > 0 {
            rest.push(SegmentCopy { dst: placed(base, aligned_min, p), src: p.p_offset, len: p.p_filesz })
        } else {
            rest
        }
    }
}

/// A write of `value` at address `dst`.
#[derive(Clone, Copy, Debug, PartialEq, Eq, Structural)]
pub struct RelocWrite {
    /// Destination address.
    pub dst: u64,
    /// The value.
    pub value: u64,
}

/// `a + b` wrapping around at 64 bits.
pub open spec fn wrap_add(a: u64, b: int) -> u64 {
    ((a as int + b) % 0x1_0000_0000_0000_0000) as u64
}

/// The write that relocation `r` asks for with the image at `base`, if it
/// is of a type that is applied.
pub open spec fn rela_write(base: u64, r: Rela) -> Option<RelocWrite> {
    if r.r_type == R_X86_64_RELATIVE || r.r_type == R_X86_64_64 {
        Some(RelocWrite { dst: wrap_add(base, r.r_offset as int), value: wrap_add(base, r.r_addend as u64 as int) })
    } else {
        None
    }
}

/// The writes for relocations `rs`, in order.
pub open spec fn rela_writes(rs: Seq<Rela>, base: u64) -> Seq<RelocWrite>
    decreases rs.len(),
{
    if rs.len() == 0 {
        Seq::empty()
    } else {
        let rest = rela_writes(rs.drop_last(), base);
        match rela_write(base, rs.last()) {
            Some(w) => rest.push(w),
            None => rest,
        }
    }
}

/// The writes for the relocation sections among `secs`, in order.
pub open spec fn section_writes(secs: Seq<(u32, Option<Vec<Rela>>)>, base: u64) -> Seq<RelocWrite>
    decreases secs.len(),
{
    if secs.len() == 0 {
        Seq::empty()
    } else {
        let rest = section_writes(secs.drop_last(), base);
        let (t, rs) = secs.last();
        if t == SHT_RELA && rs is Some {
            rest + rela_writes(rs->Some_0@, base)
        } else {
            rest
        }
    }
}

/// Whether relocation `r` is of a type that the loader applies: relative,
/// or a 64-bit absolute address.
pub open spec fn applied_type(r: Rela) -> bool {
    r.r_type == 8 || r.r_type == 1
}

/// The write that relocating `r` against an image at `base` makes: the
/// base plus the addend, stored at the base plus the offset, each sum taken
/// modulo 2^64.
pub open spec fn relocated_at(base: u64, r: Rela) -> RelocWrite {
    RelocWrite {
        dst: ((base as int + r.r_offset as int) % 0x1_0000_0000_0000_0000) as u64,
        value: ((base as int + r.r_addend as u64 as int) % 0x1_0000_0000_0000_0000) as u64,
    }
}

/// Whether `w` is the relocated write of an applied relocation of `rs`.
pub open spec fn from_applied(rs: Seq<Rela>, base: u64, w: RelocWrite) -> bool {
    exists|i: int| 0 <= i < rs.len() && applied_type(#[trigger] rs[i]) && w == relocated_at(base, rs[i])
}

/// Whether `w` is the relocated write of an applied relocation of a
/// section of type SHT_RELA among `secs`.
pub open spec fn from_applied_section(secs: Seq<(u32, Option<Vec<Rela>>)>, base: u64, w: RelocWrite) -> bool {
    exists|j: int, i: int| 0 <= j < secs.len() && secs[j].0 == 4 && #[trigger] secs[j].1 is Some
        && 0 <= i < secs[j].1->Some_0@.len() && applied_type(#[trigger] secs[j].1->Some_0@[i])
        && w == relocated_at(base, secs[j].1->Some_0@[i])
}

/// The writes for a list of relocations are exactly the relocated writes of
/// its applied relocations: each applied one gives its write (the base
/// plus the addend, at the base plus the offset), and every write comes
/// from one of them.
pub proof fn lemma_rela_writes_relocate(rs: Seq<Rela>, base: u64)
    ensures
        forall|i: int| 0 <= i < rs.len() && applied_type(#[trigger] rs[i])
            ==> rela_writes(rs, base).contains(relocated_at(base, rs[i])),
        forall|k: int| 0 <= k < rela_writes(rs, base).len() ==> #[trigger] from_applied(rs, base, rela_writes(rs, base)[k]),
    decreases rs.len(),
{
    if rs.len() > 0 {
        let d = rs.drop_last();
        lemma_rela_writes_relocate(d, base);
        let rest = rela_writes(d, base);
        let w = rela_writes(rs, base);
        assert forall|i: int| 0 <= i < rs.len() && applied_type(#[trigger] rs[i])
            implies w.contains(relocated_at(base, rs[i])) by {
            if i < rs.len() - 1 {
                assert(d[i] == rs[i]);
                assert(rest.contains(relocated_at(base, d[i])));
                let k = choose|k: int| 0 <= k < rest.len() && rest[k] == relocated_at(base, d[i]);
                assert(w[k] == rest[k]);
            } else {
                assert(w[w.len() - 1] == relocated_at(base, rs[i]));
            }
        }
        assert forall|k: int| 0 <= k < rela_writes(rs, base).len() implies #[trigger] from_applied(rs, base, rela_writes(rs, base)[k]) by {
            if k < rest.len() {
                assert(w[k] == rest[k]);
                assert(from_applied(d, base, rest[k]));
                let i = choose|i: int| 0 <= i < d.len() && applied_type(#[trigger] d[i]) && rest[k] == relocated_at(base, d[i]);
                assert(rs[i] == d[i]);
                assert(applied_type(rs[i]) && w[k] == relocated_at(base, rs[i]));
            } else {
                let i = rs.len() - 1;
                assert(rs[i] == rs.last());
                assert(rela_write(base, rs.last()) is Some);
                assert(applied_type(rs[i]) && w[k] == relocated_at(base, rs[i]));
            }
        }
    }
}

/// The writes for a list of relocations are its applied relocations, in
/// order, each relocated: the base plus the addend, at the base plus the
/// offset.
pub proof fn lemma_rela_writes_in_order(rs: Seq<Rela>, base: u64)
    ensures
        rela_writes(rs, base) == rs.filter(|r: Rela| applied_type(r)).map_values(|r: Rela| relocated_at(base, r)),
    decreases rs.len(),
{
    reveal(Seq::filter);
    if rs.len() > 0 {
        let d = rs.drop_last();
        lemma_rela_writes_in_order(d, base);
        let f = |r: Rela| applied_type(r);
        let g = |r: Rela| relocated_at(base, r);
        assert(rs.filter(f) == if f(rs.last()) { d.filter(f).push(rs.last()) } else { d.filter(f) });
        if f(rs.last()) {
            assert(d.filter(f).push(rs.last()).map_values(g) =~= d.filter(f).map_values(g).push(g(rs.last())));
        }
    }
}

/// The writes that the relocation sections of an image call for are
/// exactly the relocated writes of the applied relocations of its sections
/// of type SHT_RELA: each such relocation gives the base plus its addend at
/// the base plus its offset, and no other write is made.
pub proof fn lemma_section_writes_relocate(secs: Seq<(u32, Option<Vec<Rela>>)>, base: u64)
    ensures
        forall|j: int, i: int| 0 <= j < secs.len() && secs[j].0 == 4 && #[trigger] secs[j].1 is Some
            && 0 <= i < secs[j].1->Some_0@.len() && applied_type(#[trigger] secs[j].1->Some_0@[i])
            ==> section_writes(secs, base).contains(relocated_at(base, secs[j].1->Some_0@[i])),
        forall|k: int| 0 <= k < section_writes(secs, base).len()
            ==> #[trigger] from_applied_section(secs, base, section_writes(secs, base)[k]),
    decreases secs.len(),
{
    if secs.len() > 0 {
        let d = secs.drop_last();
        lemma_section_writes_relocate(d, base);
        let rest = section_writes(d, base);
        let w = section_writes(secs, base);
        let (t, last) = secs.last();
        if t == SHT_RELA && last is Some {
            lemma_rela_writes_relocate(last->Some_0@, base);
        }
        let lw = if t == SHT_RELA && last is Some { rela_writes(last->Some_0@, base) } else { Seq::empty() };
        assert(w == rest + lw);
        assert forall|j: int, i: int| 0 <= j < secs.len() && secs[j].0 == 4 && #[trigger] secs[j].1 is Some
            && 0 <= i < secs[j].1->Some_0@.len() && applied_type(#[trigger] secs[j].1->Some_0@[i])
            implies w.contains(relocated_at(base, secs[j].1->Some_0@[i])) by {
            let x = relocated_at(base, secs[j].1->Some_0@[i]);
            if j < secs.len() - 1 {
                assert(d[j] == secs[j]);
                assert(rest.contains(x));
                let k = choose|k: int| 0 <= k < rest.len() && rest[k] == x;
                assert(w[k] == rest[k]);
            } else {
                assert(lw.contains(x));
                let k = choose|k: int| 0 <= k < lw.len() && lw[k] == x;
                assert(w[rest.len() + k] == lw[k]);
            }
        }
        assert forall|k: int| 0 <= k < section_writes(secs, base).len()
            implies #[trigger] from_applied_section(secs, base, section_writes(secs, base)[k]) by {
            if k < rest.len() {
                assert(w[k] == rest[k]);
                assert(from_applied_section(d, base, rest[k]));
                let (j, i) = choose|j: int, i: int| 0 <= j < d.len()
                    && d[j].0 == 4 && #[trigger] d[j].1 is Some && 0 <= i < d[j].1->Some_0@.len()
                    && applied_type(#[trigger] d[j].1->Some_0@[i])
                    && rest[k] == relocated_at(base, d[j].1->Some_0@[i]);
                assert(secs[j] == d[j]);
                assert(secs[j].0 == 4 && secs[j].1 is Some && applied_type(secs[j].1->Some_0@[i])
                    && w[k] == relocated_at(base, secs[j].1->Some_0@[i]));
            } else {
                let kk = k - rest.len();
                assert(w[k] == lw[kk]);
                assert(lw.len() > 0);
                assert(t == SHT_RELA && last is Some);
                assert(from_applied(last->Some_0@, base, lw[kk]));
                let i = choose|i: int| 0 <= i < last->Some_0@.len()
                    && applied_type(#[trigger] last->Some_0@[i]) && lw[kk] == relocated_at(base, last->Some_0@[i]);
                let j = secs.len() - 1;
                assert(secs[j] == secs.last());
                assert(secs[j].0 == 4 && secs[j].1 is Some && applied_type(secs[j].1->Some_0@[i])
                    && w[k] == relocated_at(base, secs[j].1->Some_0@[i]));
            }
        }
    }
}

/// How a range is to be protected: `size` bytes from `start`, with the
/// page-table flag bits `flags`.
#[derive(Clone, Copy, Debug, PartialEq, Eq, Structural)]
pub struct Protect {
    /// First address (page-aligned).
    pub start: u64,
    /// Size in bytes (a multiple of a page).
    pub size: u64,
    /// Page-table flag bits.
    pub flags: u64,
}

/// Present and writable.
pub const PROT_RW: u64 = 0x3;
/// Present, writable, not executable.
pub const PROT_RW_NX: u64 = 0x8000_0000_0000_0003;

/// The protection of loadable segment `p` placed at `base`.
pub open spec fn protect_of(base: u64, aligned_min: u64, p: Segment) -> Protect {
    let d = placed(base, aligned_min, p);
    let start = page_floor(d);
    let end = page_ceil((d + p.p_memsz) as u64);
    Protect { start, size: (end - start) as u64, flags: if p.p_flags & 1 == 0 { PROT_RW_NX } else { PROT_RW } }
}

/// The protections of the loadable segments of `s`, in order.
pub open spec fn protects_of(s: Seq<Segment>, base: u64, aligned_min: u64) -> Seq<Protect>
    decreases s.len(),
{
    if s.len() == 0 {
        Seq::empty()
    } else {
        let rest = protects_of(s.drop_last(), base, aligned_min);
        if s.last().p_type == PT_LOAD { rest.push(protect_of(base, aligned_min, s.last())) } else { rest }
    }
}

/// The copies that place an image are, in order, one for each loadable
/// segment with bytes in the file: its file bytes (offset and size) go to
/// the base plus the segment's address above the page-aligned lowest
/// address, modulo 2^64.
pub proof fn lemma_copies_in_order(s: Seq<Segment>, base: u64, aligned_min: u64)
    ensures
        copies_of(s, base, aligned_min) == s.filter(|p: Segment| p.p_type == PT_LOAD && p.p_filesz > 0).map_values(
            |p: Segment| SegmentCopy {
                dst: ((base as int + ((p.p_vaddr as int - aligned_min) % 0x1_0000_0000_0000_0000)) % 0x1_0000_0000_0000_0000) as u64,
                src: p.p_offset,
                len: p.p_filesz,
            }),
    decreases s.len(),
{
    reveal(Seq::filter);
    if s.len() > 0 {
        let d = s.drop_last();
        lemma_copies_in_order(d, base, aligned_min);
        let f = |p: Segment| p.p_type == PT_LOAD && p.p_filesz > 0;
        let g = |p: Segment| SegmentCopy {
            dst: ((base as int + ((p.p_vaddr as int - aligned_min) % 0x1_0000_0000_0000_0000)) % 0x1_0000_0000_0000_0000) as u64,
            src: p.p_offset,
            len: p.p_filesz,
        };
        assert(s.filter(f) == if f(s.last()) { d.filter(f).push(s.last()) } else { d.filter(f) });
        if f(s.last()) {
            assert(d.filter(f).push(s.last()).map_values(g) =~= d.filter(f).map_values(g).push(g(s.last())));
        }
    }
}

/// The protections of an image are, in order, one for each loadable
/// segment.
pub proof fn lemma_protects_in_order(s: Seq<Segment>, base: u64, aligned_min: u64)
    ensures
        protects_of(s, base, aligned_min) == s.filter(|p: Segment| p.p_type == PT_LOAD).map_values(
            |p: Segment| protect_of(base, aligned_min, p)),
    decreases s.len(),
{
    reveal(Seq::filter);
    if s.len() > 0 {
        let d = s.drop_last();
        lemma_protects_in_order(d, base, aligned_min);
        let f = |p: Segment| p.p_type == PT_LOAD;
        let g = |p: Segment| protect_of(base, aligned_min, p);
        assert(s.filter(f) == if f(s.last()) { d.filter(f).push(s.last()) } else { d.filter(f) });
        if f(s.last()) {
            assert(d.filter(f).push(s.last()).map_values(g) =~= d.filter(f).map_values(g).push(g(s.last())));
        }
    }
}

/// The protection of a loadable segment placed at `d` (when its end,
/// rounded up to a page, fits in 64 bits) covers it with whole pages: it
/// starts at a page boundary at most `d`, ends at a page boundary at least
/// `d` plus the segment's size and less than a page past it, and leaves the
/// segment executable exactly when its flags say so (bit 0).
pub proof fn lemma_protect_covers(base: u64, aligned_min: u64, p: Segment)
    requires
        placed(base, aligned_min, p) + p.p_memsz + 0xfff <= u64::MAX,
    ensures
        ({
            let d = placed(base, aligned_min, p) as int;
            let pr = protect_of(base, aligned_min, p);
            &&& pr.start % 4096 == 0
            &&& pr.size % 4096 == 0
            &&& pr.start <= d < pr.start + 4096
            &&& d + p.p_memsz <= pr.start + pr.size < d + p.p_memsz + 4096
            &&& (pr.flags == PROT_RW <==> p.p_flags & 1 != 0)
            &&& (pr.flags == PROT_RW_NX <==> p.p_flags & 1 == 0)
        }),
{
}

/// The span of an image's loadable segments (whose ends fit in 64 bits),
/// when there is one: its lowest address is that of a loadable segment and
/// no loadable segment starts below it, no loadable segment ends above its
/// highest address, and its page-aligned range starts at the page of the
/// lowest address and holds the highest one.
pub proof fn lemma_span_bounds(s: Seq<Segment>)
    requires
        segments_fit(s),
    ensures
        span_of_spec(s) is None <==> forall|i: int| 0 <= i < s.len() ==> (#[trigger] s[i]).p_type != PT_LOAD
            || s[i].p_vaddr == u64::MAX,
        span_of_spec(s) matches Some(sp) ==> {
            &&& exists|i: int| 0 <= i < s.len() && (#[trigger] s[i]).p_type == PT_LOAD && s[i].p_vaddr == sp.min_vaddr
            &&& forall|i: int| 0 <= i < s.len() && (#[trigger] s[i]).p_type == PT_LOAD
                ==> sp.min_vaddr <= s[i].p_vaddr && s[i].p_vaddr + s[i].p_memsz <= sp.max_vaddr
            &&& sp.aligned_min % 4096 == 0
            &&& sp.aligned_min <= sp.min_vaddr < sp.aligned_min + 4096
            &&& sp.total_size % 4096 == 0
            &&& sp.max_vaddr <= sp.aligned_min + sp.total_size
        },
{
    lemma_min_max(s, s.len() as int);
    let lo = min_vaddr(s, s.len() as int);
    let hi = max_vaddr(s, s.len() as int);
    if lo != u64::MAX {
        let i = choose|i: int| 0 <= i < s.len() && (#[trigger] s[i]).p_type == PT_LOAD && s[i].p_vaddr == lo;
        assert(hi + 0xfff <= u64::MAX) by {
            if hi != 0 {
                let j = choose|j: int| 0 <= j < s.len() && (#[trigger] s[j]).p_type == PT_LOAD && s[j].p_vaddr + s[j].p_memsz == hi;
            }
        }
        let f = page_floor(lo) as int;
        let c = page_ceil(hi) as int;
        assert(f == lo - lo % 4096);
        assert(f % 4096 == 0);
        assert(c >= hi);
        assert(c % 4096 == 0);
        assert((c - f) % 4096 == 0) by {
            vstd::arithmetic::div_mod::lemma_sub_mod_noop(c, f, 4096);
        }
    }
}

/// The least start and the largest end of the loadable segments among the
/// first `n` of `s`.
proof fn lemma_min_max(s: Seq<Segment>, n: int)
    requires
        0 <= n <= s.len(),
        segments_fit(s),
    ensures
        min_vaddr(s, n) == u64::MAX <==> forall|i: int| 0 <= i < n ==> (#[trigger] s[i]).p_type != PT_LOAD || s[i].p_vaddr == u64::MAX,
        min_vaddr(s, n) != u64::MAX ==> exists|i: int| 0 <= i < n && (#[trigger] s[i]).p_type == PT_LOAD && s[i].p_vaddr == min_vaddr(s, n),
        forall|i: int| 0 <= i < n && (#[trigger] s[i]).p_type == PT_LOAD
            ==> min_vaddr(s, n) <= s[i].p_vaddr && s[i].p_vaddr + s[i].p_memsz <= max_vaddr(s, n),
        min_vaddr(s, n) != u64::MAX ==> min_vaddr(s, n) <= max_vaddr(s, n),
        max_vaddr(s, n) != 0 ==> exists|j: int| 0 <= j < n && (#[trigger] s[j]).p_type == PT_LOAD
            && s[j].p_vaddr + s[j].p_memsz == max_vaddr(s, n),
    decreases n,
{
    if n > 0 {
        lemma_min_max(s, n - 1);
        let x = s[n - 1];
        if x.p_type == PT_LOAD {
            assert(x.p_vaddr + x.p_memsz + 0xfff <= u64::MAX);
        }
        if min_vaddr(s, n) != u64::MAX && min_vaddr(s, n - 1) == u64::MAX {
            assert(s[n - 1].p_type == PT_LOAD && s[n - 1].p_vaddr == min_vaddr(s, n));
        }
        if max_vaddr(s, n) != max_vaddr(s, n - 1) {
            assert(s[n - 1].p_type == PT_LOAD && s[n - 1].p_vaddr + s[n - 1].p_memsz == max_vaddr(s, n));
        }
    }
}

/// Whether each loadable segment of `s`, placed at `base`, ends (rounded
/// up to a page) within 64 bits.
pub open spec fn placement_fits(s: Seq<Segment>, base: u64, aligned_min: u64) -> bool {
    forall|i: int| 0 <= i < s.len() && (#[trigger] s[i]).p_type == PT_LOAD ==>
        placed(base, aligned_min, s[i]) + s[i].p_memsz + 0xfff <= u64::MAX
}

/// The value of the last symbol of `syms` whose trimmed name is `name`.
pub open spec fn last_named(syms: Seq<(Option<String>, u64)>, name: Seq<char>) -> Option<u64>
    decreases syms.len(),
{
    if syms.len() == 0 {
        None
    } else {
        let (n, v) = syms.last();
        if n is Some && trimmed(n->Some_0@) == name {
            Some(v)
        } else {
            last_named(syms.drop_last(), name)
        }
    }
}

/// The value of the last symbol of `syms` named `_start`.
pub open spec fn entry_symbol(syms: Seq<(Option<String>, u64)>) -> Option<u64> {
    last_named(syms, seq!['_', 's', 't', 'a', 'r', 't'])
}

/// Why a module cannot be loaded.
#[derive(Debug)]
pub enum LoadError {
    /// The ELF image does not parse; the parser's message.
    Parse(String),
    /// No loadable segment.
    NoLoadSegments,
    /// A segment reaches past the end of the address space.
    Overflow,
    /// The entry point lies outside the loaded image.
    EntryOutOfBounds,
}

/// A module placed in memory.
pub struct Module {
    /// Where its image starts.
    pub offset: u64,
    /// Its entry point.
    pub entry: u64,
    /// Its name.
    pub name: String,
    /// The size of its linked range.
    pub size: u64,
    /// The symbols of its image: each name (when the string table yields
    /// it) and value, for lookups after loading.
    pub symbols: Vec<(Option<String>, u64)>,
}

impl Module {
    /// A module at `offset` with entry point `entry`, name, size and the
    /// symbols of its image.
    pub fn new(offset: u64, entry: u64, name: String, size: u64, symbols: Vec<(Option<String>, u64)>) -> (m: Module)
        ensures
            m.offset == offset,
            m.entry == entry,
            m.name == name,
            m.size == size,
            m.symbols@ == symbols@,
    {
        Module { offset, entry, name, size, symbols }
    }

    /// The symbols of the module's image, names and values, in the order
    /// of its symbol table.
    pub fn symbols(&self) -> (r: &[(Option<String>, u64)])
        ensures
            r@ == self.symbols@,
    {
        self.symbols.as_slice()
    }

    /// The address of a symbol of value `st_value` in the placed image
    /// (wrapping around).
    pub fn getaddr(&self, st_value: u64) -> (a: u64)
        ensures
            a == wrap_add(self.offset, st_value as int),
    {
        self.offset.wrapping_add(st_value)
    }

    /// The address of a symbol of value `st_value` in the placed image, if
    /// it does not pass the end of the address space.
    pub fn dive(&self, st_value: u64) -> (a: Option<u64>)
        ensures
            a == (if self.offset + st_value <= u64::MAX { Some((self.offset + st_value) as u64) } else { None::<u64> }),
    {
        self.offset.checked_add(st_value)
    }

    /// Reads the ELF image `data`: its program headers (an error with the
    /// parser's message when the file header does not parse), sections,
    /// symbols and entry point, and the range its loadable segments occupy
    /// (an error when there is none, or when one reaches past 64 bits).
    pub fn prepare(data: &[u8]) -> (r: Result<Prepared, LoadError>)
        ensures
            match elf_segments_of(data@) {
                None => r matches Err(LoadError::Parse(m)) && m@ == elf_parse_error(data@),
                Some(s) => if !segments_fit(s) {
                    r == Err::<Prepared, LoadError>(LoadError::Overflow)
                } else if span_of_spec(s) is None {
                    r == Err::<Prepared, LoadError>(LoadError::NoLoadSegments)
                } else {
                    r matches Ok(p) && prepared_of(data@, p)
                },
            },
    {
        let segments = match read_segments(data) {
            Ok(s) => s,
            Err(e) => return Err(LoadError::Parse(e)),
        };
        let mut i: usize = 0;
        while i < segments.len()
            invariant
                i <= segments@.len(),
                Some(segments@) == elf_segments_of(data@),
                forall|k: int| 0 <= k < i && (#[trigger] segments@[k]).p_type == PT_LOAD ==> segments@[k].p_vaddr + segments@[k].p_memsz + 0xfff <= u64::MAX,
            decreases segments@.len() - i,
        {
            let p = segments[i];
            if p.p_type == PT_LOAD {
                if p.p_vaddr > u64::MAX - 0xfff || p.p_memsz > u64::MAX - 0xfff - p.p_vaddr {
                    proof {
                        let q = segments@[i as int];
                        assert(q.p_type == PT_LOAD && q.p_vaddr + q.p_memsz + 0xfff > u64::MAX);
                        assert(!segments_fit(segments@));
                    }
                    return Err(LoadError::Overflow);
                }
            }
            i = i + 1;
        }
        let span = match span_of(&segments) {
            Ok(s) => s,
            Err(_) => return Err(LoadError::NoLoadSegments),
        };
        let sections = read_sections(data);
        let symbols = read_symbols(data);
        let e_entry = read_entry(data);
        Ok(Prepared { segments, sections, symbols, e_entry, span })
    }
}

impl Prepared {
    /// How many pages the image needs.
    pub fn total_pages(&self) -> (n: u64)
        ensures
            n == self.span.total_size / 4096,
    {
        self.span.total_size / 4096
    }

    /// The copies that fill the loadable segments with their file bytes
    /// when the image is placed at `base` (the rest is zero).
    pub fn copies(&self, base: u64) -> (r: Vec<SegmentCopy>)
        ensures
            r@ == copies_of(self.segments@, base, self.span.aligned_min),
    {
        let mut r: Vec<SegmentCopy> = Vec::new();
        let mut i: usize = 0;
        while i < self.segments.len()
            invariant
                i <= self.segments@.len(),
                r@ == copies_of(self.segments@.take(i as int), base, self.span.aligned_min),
            decreases self.segments@.len() - i,
        {
            let p = self.segments[i];
            proof { assert(self.segments@.take(i + 1).drop_last() == self.segments@.take(i as int)); }
            if p.p_type == PT_LOAD && p.p_filesz > 0 {
                let dst = place(base, self.span.aligned_min, p);
                r.push(SegmentCopy { dst, src: p.p_offset, len: p.p_filesz });
            }
            i = i + 1;
        }
        proof { assert(self.segments@.take(self.segments@.len() as int) == self.segments@); }
        r
    }

    /// The writes that apply the relocations of the image placed at `base`:
    /// for each relative or 64-bit relocation, the base plus the addend at
    /// the base plus the offset.
    pub fn relocations(&self, base: u64) -> (r: Vec<RelocWrite>)
        ensures
            r@ == section_writes(self.sections@, base),
    {
        let mut r: Vec<RelocWrite> = Vec::new();
        let mut i: usize = 0;
        while i < self.sections.len()
            invariant
                i <= self.sections@.len(),
                r@ == section_writes(self.sections@.take(i as int), base),
            decreases self.sections@.len() - i,
        {
            proof { assert(self.sections@.take(i + 1).drop_last() == self.sections@.take(i as int)); }
            let sec = &self.sections[i];
            if sec.0 == SHT_RELA {
                match &sec.1 {
                    Some(rs) => {
                        let ghost before = r@;
                        let mut j: usize = 0;
                        while j < rs.len()
                            invariant
                                j <= rs@.len(),
                                r@ == before + rela_writes(rs@.take(j as int), base),
                            decreases rs@.len() - j,
                        {
                            proof { assert(rs@.take(j + 1).drop_last() == rs@.take(j as int)); }
                            let x = rs[j];
                            if x.r_type == R_X86_64_RELATIVE || x.r_type == R_X86_64_64 {
                                let dst = base.wrapping_add(x.r_offset);
                                let value = base.wrapping_add(x.r_addend as u64);
                                proof {
                                    assert(dst == wrap_add(base, x.r_offset as int));
                                    assert(value == wrap_add(base, x.r_addend as u64 as int));
                                    assert(before + rela_writes(rs@.take(j + 1), base) == (before + rela_writes(rs@.take(j as int), base)).push(RelocWrite { dst, value }));
                                }
                                r.push(RelocWrite { dst, value });
                            }
                            j = j + 1;
                        }
                        proof { assert(rs@.take(rs@.len() as int) == rs@); }
                    },
                    None => {},
                }
            }
            i = i + 1;
        }
        proof { assert(self.sections@.take(self.sections@.len() as int) == self.sections@); }
        r
    }

    /// Whether the segments, placed at `base`, end within 64 bits.
    pub fn placement_fits(&self, base: u64) -> (b: bool)
        ensures
            b == placement_fits(self.segments@, base, self.span.aligned_min),
    {
        let mut i: usize = 0;
        while i < self.segments.len()
            invariant
                i <= self.segments@.len(),
                forall|k: int| 0 <= k < i && (#[trigger] self.segments@[k]).p_type == PT_LOAD ==>
                    placed(base, self.span.aligned_min, self.segments@[k]) + self.segments@[k].p_memsz + 0xfff <= u64::MAX,
            decreases self.segments@.len() - i,
        {
            let p = self.segments[i];
            if p.p_type == PT_LOAD {
                let d = place(base, self.span.aligned_min, p);
                if d > u64::MAX - 0xfff || p.p_memsz > u64::MAX - 0xfff - d {
                    return false;
                }
            }
            i = i + 1;
        }
        true
    }

    /// The protections of the loadable segments placed at `base`: each
    /// segment's pages present and writable, and not executable unless the
    /// segment is.
    pub fn protections(&self, base: u64) -> (r: Vec<Protect>)
        requires
            placement_fits(self.segments@, base, self.span.aligned_min),
        ensures
            r@ == protects_of(self.segments@, base, self.span.aligned_min),
    {
        let mut r: Vec<Protect> = Vec::new();
        let mut i: usize = 0;
        while i < self.segments.len()
            invariant
                i <= self.segments@.len(),
                placement_fits(self.segments@, base, self.span.aligned_min),
                r@ == protects_of(self.segments@.take(i as int), base, self.span.aligned_min),
            decreases self.segments@.len() - i,
        {
            let p = self.segments[i];
            proof { assert(self.segments@.take(i + 1).drop_last() == self.segments@.take(i as int)); }
            if p.p_type == PT_LOAD {
                assert(self.segments@[i as int].p_type == PT_LOAD);
                let d = place(base, self.span.aligned_min, p);
                let e = d + p.p_memsz;
                proof {
                    lemma_page_masks(d);
                    lemma_page_masks(e);
                }
                let start = d & !0xfff;
                let end = (e + 0xfff) & !0xfff;
                let flags = if p.p_flags & 1 == 0 { PROT_RW_NX } else { PROT_RW };
                r.push(Protect { start, size: end - start, flags });
            }
            i = i + 1;
        }
        proof { assert(self.segments@.take(self.segments@.len() as int) == self.segments@); }
        r
    }

    /// The entry point of the image placed at `base`: the value of the last
    /// symbol named `_start` (after trimming) plus the base, else the file
    /// header's entry point relative to the image; an error when it lies
    /// outside the image.
    pub fn entry(&self, base: u64) -> (r: Result<u64, LoadError>)
        ensures
            ({
                let e = match entry_symbol(self.symbols@) {
                    Some(v) => wrap_add(base, v as int),
                    None => wrap_add(base, ((self.e_entry as int - self.span.aligned_min) % 0x1_0000_0000_0000_0000)),
                };
                if e < base || e >= base + self.span.total_size {
                    r == Err::<u64, LoadError>(LoadError::EntryOutOfBounds)
                } else {
                    r == Ok::<u64, LoadError>(e)
                }
            }),
    {
        let e = match self.symbol_value("_start") {
            Some(v) => base.wrapping_add(v),
            None => base.wrapping_add(self.e_entry.wrapping_sub(self.span.aligned_min)),
        };
        proof {
            reveal_strlit("_start");
            assert("_start"@ == seq!['_', 's', 't', 'a', 'r', 't']);
        }
        if e < base || (e - base) >= self.span.total_size {
            Err(LoadError::EntryOutOfBounds)
        } else {
            Ok(e)
        }
    }

    /// The value of the last symbol whose name, trimmed, is `name`.
    pub fn symbol_value(&self, name: &str) -> (r: Option<u64>)
        ensures
            r == last_named(self.symbols@, name@),
    {
        let want = name.to_owned();
        let mut r: Option<u64> = None;
        let mut i: usize = 0;
        while i < self.symbols.len()
            invariant
                i <= self.symbols@.len(),
                want@ == name@,
                r == last_named(self.symbols@.take(i as int), name@),
            decreases self.symbols@.len() - i,
        {
            proof { assert(self.symbols@.take(i + 1).drop_last() == self.symbols@.take(i as int)); }
            let (n, v) = &self.symbols[i];
            match n {
                Some(s) => {
                    let t = trim_name(s.as_str()).to_owned();
                    if t == want {
                        r = Some(*v);
                    }
                },
                None => {},
            }
            i = i + 1;
        }
        proof { assert(self.symbols@.take(self.symbols@.len() as int) == self.symbols@); }
        r
    }

    /// Where the module placed at `base` keeps its name (the `MODNAME`
    /// symbol), if it has one.
    pub fn name_slot(&self, base: u64) -> (r: Option<u64>)
        ensures
            r == (match last_named(self.symbols@, "MODNAME"@) {
                Some(v) => Some(wrap_add(base, v as int)),
                None => None::<u64>,
            }),
    {
        match self.symbol_value("MODNAME") {
            Some(v) => Some(base.wrapping_add(v)),
            None => None,
        }
    }

    /// The module placed at `base` with entry point `entry` and name
    /// `name`: its size is the span of its loadable segments, and it keeps
    /// the image's symbols.
    pub fn module(self, base: u64, entry: u64, name: String) -> (m: Module)
        requires
            self.span.min_vaddr <= self.span.max_vaddr,
        ensures
            m.offset == base,
            m.entry == entry,
            m.name == name,
            m.size == self.span.max_vaddr - self.span.min_vaddr,
            m.symbols@ == self.symbols@,
    {
        let size = self.span.max_vaddr - self.span.min_vaddr;
        Module::new(base, entry, name, size, self.symbols)
    }
}

/// [`placed`], computed.
fn place(base: u64, aligned_min: u64, p: Segment) -> (d: u64)
    ensures
        d == placed(base, aligned_min, p),
{
    base.wrapping_add(p.p_vaddr.wrapping_sub(aligned_min))
}

} // verus!
