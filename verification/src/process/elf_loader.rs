//! The ELF32 file and program headers, read little-endian from the bytes
//! of a binary, and the loading of a segment into an address space.

use vstd::prelude::*;
use crate::consts::error::KError;
use crate::memory::pmap::{alloc_post, insert_post, mem_byte, zero_page, Pmap};
use crate::memory::regions::{PAGE_SIZE, PTE_D, PTE_V, ULIM};

verus! {

/// The 16-bit little-endian number at `off` in `b`.
pub open spec fn le16(b: Seq<u8>, off: int) -> u16 {
    (b[off] as int + b[off + 1] as int * 256) as u16
}

/// The 32-bit little-endian number at `off` in `b`.
pub open spec fn le32(b: Seq<u8>, off: int) -> u32 {
    (b[off] as int + b[off + 1] as int * 256 + b[off + 2] as int * 65536 + b[off + 3] as int
        * 16777216) as u32
}

/// Read the 16-bit little-endian number at `off`.
fn read_u16(b: &[u8], off: usize) -> (r: u16)
    requires
        off + 2 <= b@.len(),
    ensures
        r == le16(b@, off as int),
{
    b[off] as u16 + (b[off + 1] as u16) * 256
}

/// Read the 32-bit little-endian number at `off`.
fn read_u32(b: &[u8], off: usize) -> (r: u32)
    requires
        off + 4 <= b@.len(),
    ensures
        r == le32(b@, off as int),
{
    b[off] as u32 + (b[off + 1] as u32) * 256 + (b[off + 2] as u32) * 65536 + (b[off + 3] as u32)
        * 16777216
}

/// The size of the ELF32 file header in bytes.
pub const ELF32_EHDR_SIZE: usize = 52;

/// The size of an ELF32 program header in bytes.
pub const ELF32_PHDR_SIZE: usize = 32;

/// The ELF32 file header structure. The members are defined in the same order
/// as in the actual elf file.
#[derive(Clone, Copy, Debug)]
pub struct Elf32Ehdr {
    /// Magic number and other information.
    pub ident: [u8; 16],
    /// The object file type.
    pub ftype: u16,
    /// The architecture.
    pub _machine: u16,
    /// The object file version.
    pub _version: u32,
    /// The **virtual** address for the entry point.
    pub entry: u32,
    /// The offset of the program header table from the file's start.
    pub phoff: u32,
    /// The offset of the section header table from the file's start.
    pub _shoff: u32,
    /// The processor-specific flag.
    pub _flags: u32,
    /// The elf header size (in bytes).
    pub _ehsize: u16,
    /// The program header table entry size.
    pub phentsize: u16,
    /// The program header table entry count.
    pub phnum: u16,
    /// The section header table entry size.
    pub _shentsize: u16,
    /// The section header table entry count.
    pub _shnum: u16,
    /// The section header string table index.
    pub _shstrndx: u16,
}

/// Whether the bytes `b` start with an ELF32 executable's file header: they
/// hold a whole header, with the magic number and the executable type.
pub open spec fn is_elf_exec(b: Seq<u8>) -> bool {
    &&& b.len() >= ELF32_EHDR_SIZE
    &&& le16(b, 16) == 2
    &&& b[0] == 0x7f
    &&& b[1] == 0x45
    &&& b[2] == 0x4c
    &&& b[3] == 0x46
}

/// Whether `h` is the file header that the bytes `b` start with.
pub open spec fn ehdr_of(h: Elf32Ehdr, b: Seq<u8>) -> bool {
    &&& h.ident@ == b.subrange(0, 16)
    &&& h.ftype == le16(b, 16)
    &&& h._machine == le16(b, 18)
    &&& h._version == le32(b, 20)
    &&& h.entry == le32(b, 24)
    &&& h.phoff == le32(b, 28)
    &&& h._shoff == le32(b, 32)
    &&& h._flags == le32(b, 36)
    &&& h._ehsize == le16(b, 40)
    &&& h.phentsize == le16(b, 42)
    &&& h.phnum == le16(b, 44)
    &&& h._shentsize == le16(b, 46)
    &&& h._shnum == le16(b, 48)
    &&& h._shstrndx == le16(b, 50)
}

impl Elf32Ehdr {
    /// Read the file header from the binary. `None` is returned unless the
    /// binary holds a whole header with the ELF magic number and the
    /// executable type.
    pub fn from(binary: &[u8]) -> (r: Option<Elf32Ehdr>)
        ensures
            r is Some <==> is_elf_exec(binary@),
            r matches Some(h) ==> ehdr_of(h, binary@),
    {
        if binary.len() < ELF32_EHDR_SIZE {
            return None;
        }
        let b = binary;
        let ehdr = Elf32Ehdr {
            ident: [
                b[0], b[1], b[2], b[3], b[4], b[5], b[6], b[7], b[8], b[9], b[10], b[11], b[12], b[13],
                b[14], b[15],
            ],
            ftype: read_u16(b, 16),
            _machine: read_u16(b, 18),
            _version: read_u32(b, 20),
            entry: read_u32(b, 24),
            phoff: read_u32(b, 28),
            _shoff: read_u32(b, 32),
            _flags: read_u32(b, 36),
            _ehsize: read_u16(b, 40),
            phentsize: read_u16(b, 42),
            phnum: read_u16(b, 44),
            _shentsize: read_u16(b, 46),
            _shnum: read_u16(b, 48),
            _shstrndx: read_u16(b, 50),
        };
        proof {
            assert(ehdr.ident@ =~= b@.subrange(0, 16));
        }
        if ehdr.ftype == 2 && ehdr.ident[0] == 0x7f && ehdr.ident[1] == 0x45 && ehdr.ident[2] == 0x4c
            && ehdr.ident[3] == 0x46 {
            Some(ehdr)
        } else {
            None
        }
    }

    /// The offsets of all the program header entries, in order.
    pub fn foreach(&self) -> (r: Vec<u32>)
        requires
            self.phoff + self.phnum * self.phentsize <= u32::MAX,
        ensures
            r@ == Seq::new(self.phnum as nat, |k: int| (self.phoff + k * self.phentsize) as u32),
    {
        let mut r: Vec<u32> = Vec::new();
        let mut ph_off = self.phoff;
        let mut k: u16 = 0;
        while k < self.phnum
            invariant
                self.phoff + self.phnum * self.phentsize <= u32::MAX,
                k <= self.phnum,
                ph_off == self.phoff + k * self.phentsize,
                r@ == Seq::new(k as nat, |j: int| (self.phoff + j * self.phentsize) as u32),
            decreases self.phnum - k,
        {
            proof {
                assert(self.phoff + (k + 1) * self.phentsize <= self.phoff + self.phnum * self.phentsize)
                    by (nonlinear_arith)
                    requires
                        k < self.phnum,
                ;
                assert((k + 1) * self.phentsize == k * self.phentsize + self.phentsize) by (nonlinear_arith);
            }
            r.push(ph_off);
            ph_off = ph_off + self.phentsize as u32;
            k = k + 1;
            proof {
                assert(r@ =~= Seq::new(k as nat, |j: int| (self.phoff + j * self.phentsize) as u32));
            }
        }
        r
    }
}

/// The program segment header structure. The members are defined in the same
/// order as in the actual elf file.
#[derive(Clone, Copy, Debug)]
pub struct Elf32Phdr {
    /// The segment type.
    pub stype: u32,
    /// The segment offset.
    pub offset: u32,
    /// The **virtual** address of the segment.
    pub vaddr: u32,
    /// The **physical** address of the segment.
    pub _paddr: u32,
    /// The segment size in **file**.
    pub filesz: u32,
    /// The segment size in **memory**.
    pub memsz: u32,
    /// The segment flag.
    pub flags: u32,
    /// The segment alignment.
    pub _align: u32,
}

/// The program header at `off` in the bytes `b`.
pub open spec fn phdr_spec(b: Seq<u8>, off: int) -> Elf32Phdr {
    Elf32Phdr {
        stype: le32(b, off),
        offset: le32(b, off + 4),
        vaddr: le32(b, off + 8),
        _paddr: le32(b, off + 12),
        filesz: le32(b, off + 16),
        memsz: le32(b, off + 20),
        flags: le32(b, off + 24),
        _align: le32(b, off + 28),
    }
}

impl Elf32Phdr {
    /// Read the program header at `off` in the binary.
    pub fn at(binary: &[u8], off: usize) -> (r: Elf32Phdr)
        requires
            off + ELF32_PHDR_SIZE <= binary@.len(),
        ensures
            r == phdr_spec(binary@, off as int),
    {
        let _n = binary.len();
        Elf32Phdr {
            stype: read_u32(binary, off),
            offset: read_u32(binary, off + 4),
            vaddr: read_u32(binary, off + 8),
            _paddr: read_u32(binary, off + 12),
            filesz: read_u32(binary, off + 16),
            memsz: read_u32(binary, off + 20),
            flags: read_u32(binary, off + 24),
            _align: read_u32(binary, off + 28),
        }
    }
}

/// Mark the segment as executable.
pub const PF_X: u32 = 1;

/// Mark the segment as writable.
pub const PF_W: u32 = 2;

/// Mark the segment as readable.
pub const PF_R: u32 = 4;

/// Mark the segment as loadble and load-needed.
pub const PT_LOAD: u32 = 1;

/// One page to load: the page is allocated, `len` bytes of the binary from
/// `src` on (none: the page stays zero) are copied to it at `offset`, and
/// it is mapped at `va`.
#[derive(Clone, Copy, Debug)]
pub struct LoadReq {
    /// Where the page is mapped.
    pub va: usize,
    /// Where in the page the bytes go.
    pub offset: usize,
    /// Where in the binary the bytes come from; none for a zero page.
    pub src: Option<usize>,
    /// How many bytes.
    pub len: usize,
}

/// The permission of the pages of a segment with the flags `flags`: valid,
/// and dirty (writable) if the segment is writable.
pub open spec fn seg_perm(flags: u32) -> u32 {
    if flags & PF_W > 0 {
        0x80u32 | 0x100u32
    } else {
        0x80u32
    }
}

/// Law: a page loaded for a segment is mapped writable exactly where the
/// segment's flags have `PF_W`: after the page is inserted at `va` with the
/// segment's permission, where the walk of `va` stays in memory, its table
/// entry is not the directory entry and the page directory is not free,
/// `va` maps the page, and its table entry has the `PTE_D` bit set exactly
/// where `flags` has `PF_W`.
pub proof fn law_segment_page_writable(
    pre: Pmap,
    post: Pmap,
    pgdir: usize,
    va: usize,
    asid: u32,
    flags: u32,
    page: usize,
)
    requires
        pre.wf(),
        pre.walk_ok(pgdir, va),
        crate::memory::pmap::entry_valid(pre.pde_of(pgdir, va)) ==> pre.pte_index(pgdir, va) != Pmap::pde_index(
            pgdir,
            va,
        ),
        !pre.is_free(Pmap::kva_page(pgdir as int) as usize),
        page < pre.npage(),
        insert_post(pre, post, pgdir, va, asid, seg_perm(flags), page, Ok(())),
    ensures
        post.lookup(pgdir, va) matches Some((x, _)) && x == page,
        (post.pte_of(pgdir, va) & PTE_D != 0) == (flags & PF_W != 0),
{
    pre.lemma_wf_facts();
    assert(seg_perm(flags) < 4096 && (seg_perm(flags) & 0x100u32 != 0) == (flags & PF_W != 0)) by (bit_vector)
        requires
            seg_perm(flags) == if flags & 2u32 > 0 {
                0x80u32 | 0x100u32
            } else {
                0x80u32
            },
            PF_W == 2u32,
    ;
    crate::memory::pmap::lemma_insert_post_maps(pre, post, pgdir, va, asid, seg_perm(flags), page);
    crate::memory::pmap::lemma_make_entry_dirty(page as u32, seg_perm(flags));
}

/// The pages holding the file bytes of a segment at `va` from `i` on,
/// whose bytes start at `src` in the binary and are `bin_size` long.
pub open spec fn file_reqs(va: int, src: int, i: int, bin_size: int) -> Seq<LoadReq>
    decreases bin_size + 4096 - i,
{
    if i < bin_size {
        seq![LoadReq {
            va: (va + i) as usize,
            offset: 0,
            src: Some((src + i) as usize),
            len: (if bin_size - i < 4096 { bin_size - i } else { 4096 }) as usize,
        }] + file_reqs(va, src, i + 4096, bin_size)
    } else {
        Seq::empty()
    }
}

/// Where the file pages of a segment from `i` on end.
pub open spec fn file_end(i: int, bin_size: int) -> int
    decreases bin_size + 4096 - i,
{
    if i < bin_size {
        file_end(i + 4096, bin_size)
    } else {
        i
    }
}

/// The zero pages of a segment at `va` from `i` on, up to `seg_size`.
pub open spec fn zero_reqs(va: int, i: int, seg_size: int) -> Seq<LoadReq>
    decreases seg_size + 4096 - i,
{
    if i < seg_size {
        seq![LoadReq {
            va: (va + i) as usize,
            offset: 0,
            src: None,
            len: (if seg_size - i < 4096 { seg_size - i } else { 4096 }) as usize,
        }] + zero_reqs(va, i + 4096, seg_size)
    } else {
        Seq::empty()
    }
}

/// The bytes of the segment before its first page boundary, when the
/// segment does not start at one.
pub open spec fn head_len(ph: Elf32Phdr) -> int {
    let offset = ph.vaddr % 4096;
    if ph.filesz < 4096 - offset {
        ph.filesz as int
    } else {
        4096 - offset
    }
}

/// The pages [elf_load_seg] loads for the segment `ph`, in order: the head
/// page if the segment does not start at a page boundary, the pages of its
/// file bytes, and zero pages up to its size in memory.
pub open spec fn seg_plan(ph: Elf32Phdr) -> Seq<LoadReq> {
    let offset = ph.vaddr % 4096;
    let i0 = if offset != 0 { head_len(ph) } else { 0 };
    let head = if offset != 0 {
        seq![LoadReq {
            va: ph.vaddr as usize,
            offset: offset as usize,
            src: Some(ph.offset as usize),
            len: head_len(ph) as usize,
        }]
    } else {
        Seq::empty()
    };
    head + file_reqs(ph.vaddr as int, ph.offset as int, i0, ph.filesz as int) + zero_reqs(
        ph.vaddr as int,
        file_end(i0, ph.filesz as int),
        ph.memsz as int,
    )
}

/// Whether the addresses of a segment stay below the top of the address
/// space: the segment's pages, rounded up, fit in 32 bits.
pub open spec fn seg_fits(ph: Elf32Phdr) -> bool {
    &&& ph.vaddr as int + ph.filesz as int + 4096 <= u32::MAX
    &&& ph.vaddr as int + ph.memsz as int + 4096 <= u32::MAX
    &&& ph.offset as int + ph.filesz as int <= u32::MAX
}

/// The pages to load for the segment `ph`, see [seg_plan].
pub fn seg_pages(ph: &Elf32Phdr) -> (r: Vec<LoadReq>)
    requires
        seg_fits(*ph),
    ensures
        r@ == seg_plan(*ph),
{
    let va = ph.vaddr as usize;
    let bin_size = ph.filesz as usize;
    let seg_size = ph.memsz as usize;
    let src = ph.offset as usize;
    proof {
        let v = ph.vaddr;
        crate::utils::bits::lemma_u32_bits(v);
    }
    let offset = (ph.vaddr - (ph.vaddr & !0xfffu32)) as usize;
    let mut r: Vec<LoadReq> = Vec::new();
    let first = if bin_size < PAGE_SIZE - offset {
        bin_size
    } else {
        PAGE_SIZE - offset
    };
    if offset != 0 {
        r.push(LoadReq { va, offset, src: Some(src), len: first });
    }
    let mut i = if offset != 0 {
        first
    } else {
        0
    };
    let ghost i0 = i as int;
    let ghost head = r@;
    proof {
        reveal_with_fuel(file_reqs, 1);
    }
    while i < bin_size
        invariant
            seg_fits(*ph),
            va == ph.vaddr,
            bin_size == ph.filesz,
            src == ph.offset,
            i <= bin_size + 4096,
            r@ + file_reqs(va as int, src as int, i as int, bin_size as int) == head + file_reqs(
                va as int,
                src as int,
                i0,
                bin_size as int,
            ),
            file_end(i as int, bin_size as int) == file_end(i0, bin_size as int),
        decreases bin_size + 4096 - i,
    {
        let len = if bin_size - i < PAGE_SIZE {
            bin_size - i
        } else {
            PAGE_SIZE
        };
        let ghost before = r@;
        r.push(LoadReq { va: va + i, offset: 0, src: Some(src + i), len });
        proof {
            assert(file_reqs(va as int, src as int, i as int, bin_size as int) == seq![
                LoadReq { va: (va + i) as usize, offset: 0, src: Some((src + i) as usize), len }] + file_reqs(
                va as int,
                src as int,
                i + 4096,
                bin_size as int,
            ));
            assert(r@ + file_reqs(va as int, src as int, i + 4096, bin_size as int) =~= before + file_reqs(
                va as int,
                src as int,
                i as int,
                bin_size as int,
            ));
        }
        i = i + PAGE_SIZE;
    }
    let ghost i1 = i as int;
    let ghost mid = r@;
    proof {
        assert(file_reqs(va as int, src as int, i as int, bin_size as int) =~= Seq::<LoadReq>::empty());
        assert(file_end(i as int, bin_size as int) == i);
    }
    while i < seg_size
        invariant
            seg_fits(*ph),
            va == ph.vaddr,
            seg_size == ph.memsz,
            i1 <= i,
            i <= seg_size + 4096 || i == i1,
            i1 <= ph.filesz + 4096,
            r@ + zero_reqs(va as int, i as int, seg_size as int) == mid + zero_reqs(va as int, i1, seg_size as int),
        decreases seg_size + 4096 - i,
    {
        let len = if seg_size - i < PAGE_SIZE {
            seg_size - i
        } else {
            PAGE_SIZE
        };
        let ghost before = r@;
        r.push(LoadReq { va: va + i, offset: 0, src: None, len });
        proof {
            assert(zero_reqs(va as int, i as int, seg_size as int) == seq![
                LoadReq { va: (va + i) as usize, offset: 0, src: None, len }] + zero_reqs(
                va as int,
                i + 4096,
                seg_size as int,
            ));
            assert(r@ + zero_reqs(va as int, i + 4096, seg_size as int) =~= before + zero_reqs(
                va as int,
                i as int,
                seg_size as int,
            ));
        }
        i = i + PAGE_SIZE;
    }
    proof {
        assert(zero_reqs(va as int, i as int, seg_size as int) =~= Seq::<LoadReq>::empty());
        assert(r@ =~= seg_plan(*ph));
    }
    r
}

/// Each file page of a segment takes at most a page, at its start, of
/// bytes that lie within the segment's file bytes.
proof fn lemma_file_reqs(va: int, src: int, i: int, bin_size: int)
    requires
        0 <= i,
        0 <= src,
    ensures
        forall|k: int|
            0 <= k < file_reqs(va, src, i, bin_size).len() ==> {
                let q = #[trigger] file_reqs(va, src, i, bin_size)[k];
                &&& q.offset == 0
                &&& q.len <= 4096
                &&& q.src matches Some(s) && s + q.len <= src + bin_size
            },
    decreases bin_size + 4096 - i,
{
    if i < bin_size {
        lemma_file_reqs(va, src, i + 4096, bin_size);
        let rest = file_reqs(va, src, i + 4096, bin_size);
        assert forall|k: int| 0 <= k < file_reqs(va, src, i, bin_size).len() implies {
            let q = #[trigger] file_reqs(va, src, i, bin_size)[k];
            &&& q.offset == 0
            &&& q.len <= 4096
            &&& q.src matches Some(s) && s + q.len <= src + bin_size
        } by {
            if k > 0 {
                assert(file_reqs(va, src, i, bin_size)[k] == rest[k - 1]);
            }
        }
    }
}

/// Each zero page of a segment takes at most a page, at its start, and
/// copies nothing.
proof fn lemma_zero_reqs(va: int, i: int, seg_size: int)
    ensures
        forall|k: int|
            0 <= k < zero_reqs(va, i, seg_size).len() ==> {
                let q = #[trigger] zero_reqs(va, i, seg_size)[k];
                &&& q.offset == 0
                &&& q.len <= 4096
                &&& q.src is None
            },
    decreases seg_size + 4096 - i,
{
    if i < seg_size {
        lemma_zero_reqs(va, i + 4096, seg_size);
        let rest = zero_reqs(va, i + 4096, seg_size);
        assert forall|k: int| 0 <= k < zero_reqs(va, i, seg_size).len() implies {
            let q = #[trigger] zero_reqs(va, i, seg_size)[k];
            &&& q.offset == 0
            &&& q.len <= 4096
            &&& q.src is None
        } by {
            if k > 0 {
                assert(zero_reqs(va, i, seg_size)[k] == rest[k - 1]);
            }
        }
    }
}

/// Whether a page to load stays within its page and its bytes within the
/// binary `b`.
pub open spec fn req_ok(q: LoadReq, b: Seq<u8>) -> bool {
    &&& q.offset + q.len <= 4096
    &&& q.src matches Some(s) ==> s + q.len <= b.len()
}

/// Every page of the plan of a segment whose file bytes lie within the
/// binary `b` stays within its page and its bytes within the binary.
proof fn lemma_plan_ok(ph: Elf32Phdr, b: Seq<u8>)
    requires
        ph.offset + ph.filesz <= b.len(),
    ensures
        forall|k: int| 0 <= k < seg_plan(ph).len() ==> req_ok(#[trigger] seg_plan(ph)[k], b),
{
    let offset = ph.vaddr % 4096;
    let i0 = if offset != 0 { head_len(ph) } else { 0 };
    let head = if offset != 0 {
        seq![LoadReq {
            va: ph.vaddr as usize,
            offset: offset as usize,
            src: Some(ph.offset as usize),
            len: head_len(ph) as usize,
        }]
    } else {
        Seq::empty()
    };
    let f = file_reqs(ph.vaddr as int, ph.offset as int, i0, ph.filesz as int);
    let z = zero_reqs(ph.vaddr as int, file_end(i0, ph.filesz as int), ph.memsz as int);
    lemma_file_reqs(ph.vaddr as int, ph.offset as int, i0, ph.filesz as int);
    lemma_zero_reqs(ph.vaddr as int, file_end(i0, ph.filesz as int), ph.memsz as int);
    assert(seg_plan(ph) == head + f + z);
    assert forall|k: int| 0 <= k < seg_plan(ph).len() implies req_ok(#[trigger] seg_plan(ph)[k], b) by {
        if k < head.len() {
        } else if k < head.len() + f.len() {
            assert(seg_plan(ph)[k] == f[k - head.len()]);
        } else {
            assert(seg_plan(ph)[k] == z[k - head.len() - f.len()]);
        }
    }
}

/// The bytes a page to load takes from the binary `b`: none for a zero
/// page.
pub open spec fn req_bytes(q: LoadReq, b: Seq<u8>) -> Seq<u8> {
    match q.src {
        Some(s) => b.subrange(s as int, s + q.len),
        None => Seq::empty(),
    }
}

/// Whether `post` is `pre` with the bytes `bytes` copied into page `p` at
/// `offset`, and nothing else changed.
pub open spec fn copied(pre: Pmap, post: Pmap, p: int, offset: int, bytes: Seq<u8>) -> bool {
    &&& post.wf()
    &&& post.npage() == pre.npage()
    &&& post.free_list() == pre.free_list()
    &&& forall|q: int| 0 <= q < post.npage() ==> #[trigger] post.ref_of(q) == pre.ref_of(q)
    &&& post.tlb_requests() == pre.tlb_requests()
    &&& post.mem().len() == pre.mem().len()
    &&& forall|k: int|
        0 <= k < post.mem().len() && !(p * 1024 <= k < p * 1024 + 1024) ==> #[trigger] post.mem()[k]
            == pre.mem()[k]
    &&& forall|a: int|
        0 <= a < 4096 ==> #[trigger] mem_byte(post.mem(), p * 4096 + a) == if offset <= a < offset
            + bytes.len() {
            bytes[a - offset]
        } else {
            mem_byte(pre.mem(), p * 4096 + a)
        }
}

/// What [load_page] does to the page manager `pre`, leaving `post` and
/// returning `r`: the first free page is allocated, the bytes of the
/// request are copied into it, and it is mapped at the request's address
/// with the permission `perm`, under the page directory at `pgdir` in the
/// address space `asid`.
pub open spec fn load_post(
    pre: Pmap,
    post: Pmap,
    pgdir: usize,
    asid: u32,
    perm: u32,
    b: Seq<u8>,
    q: LoadReq,
    r: Result<(), KError>,
) -> bool {
    &&& pre.free_list().len() == 0 ==> r == Err::<(), KError>(KError::NoMem) && post == pre
    &&& pre.free_list().len() > 0 ==> exists|m1: Pmap, m2: Pmap|
        #![trigger m1.wf(), m2.wf()]
        {
            let p = pre.free_list()[0];
            &&& alloc_post(pre, m1, Ok(p))
            &&& m1.wf()
            &&& m1.npage() == pre.npage()
            &&& copied(m1, m2, p as int, q.offset as int, req_bytes(q, b))
            &&& r == Err::<(), KError>(KError::Invalid) ==> {
                &&& post == m2
                &&& !(m2.mapping_ok(pgdir, q.va) && m2.ref_of(Pmap::kva_page(pgdir as int)) > 0 && (m2.lookup(
                    pgdir,
                    q.va,
                ) matches Some((x, _)) && x != p ==> m2.pte_index(pgdir, q.va) != Pmap::pde_index(
                    pgdir,
                    q.va,
                )))
            }
            &&& r != Err::<(), KError>(KError::Invalid) ==> insert_post(m2, post, pgdir, q.va, asid, perm, p, r)
        }
}

/// Load one page: allocate it, copy the request's bytes of the binary into
/// it, and map it at the request's address with the permission `perm`,
/// under the page directory at `pgdir` in the address space `asid`.
///
/// `Err(KError::NoMem)` is returned if a page cannot be had;
/// `Err(KError::Invalid)` if the page cannot be mapped there safely: the
/// mapping it would replace holds no reference, or the page directory has
/// none.
pub fn load_page(pmap: &mut Pmap, pgdir: usize, asid: u32, perm: u32, binary: &[u8], q: LoadReq) -> (r: Result<(), KError>)
    requires
        old(pmap).wf(),
        old(pmap).is_page_kva(pgdir),
        req_ok(q, binary@),
    ensures
        final(pmap).wf(),
        final(pmap).npage() == old(pmap).npage(),
        load_post(*old(pmap), *final(pmap), pgdir, asid, perm, binary@, q, r),
{
    proof {
        old(pmap).lemma_wf_facts();
    }
    let p = match pmap.page_alloc() {
        Ok(p) => p,
        Err(e) => {
            return Err(e);
        },
    };
    let ghost m1 = *pmap;
    proof {
        assert(old(pmap).is_free(p));
        assert(!m1.is_free(p)) by {
            if m1.free_list().contains(p) {
                let j = m1.free_list().index_of(p);
                assert(old(pmap).free_list()[j + 1] == p);
            }
        }
        assert(p * 4096 + 4096 <= m1.mem().len() * 4) by (nonlinear_arith)
            requires
                p < m1.npage(),
                m1.mem().len() == m1.npage() * 1024,
        ;
    }
    let ghost bytes = req_bytes(q, binary@);
    if let Some(start) = q.src {
        let n = binary.len();
        proof {
            assert(m1.mem().len() * 4 <= 0x8000_0000) by (nonlinear_arith)
                requires
                    m1.mem().len() == m1.npage() * 1024,
                    m1.npage() <= 0x8_0000,
            ;
        }
        let mut k: usize = 0;
        while k < q.len
            invariant
                pmap.wf(),
                req_ok(q, binary@),
                q.src == Some(start),
                bytes == binary@.subrange(start as int, start + q.len),
                k <= q.len,
                p < m1.npage(),
                p * 4096 + 4096 <= m1.mem().len() * 4,
                m1.mem().len() * 4 <= 0x8000_0000,
                n == binary@.len(),
                copied(m1, *pmap, p as int, q.offset as int, bytes.subrange(0, k as int)),
            decreases q.len - k,
        {
            let ghost s0 = *pmap;
            let addr = p * PAGE_SIZE + q.offset + k;
            pmap.write_byte(addr, binary[start + k]);
            k = k + 1;
            proof {
                let bk = bytes.subrange(0, k as int);
                assert forall|a: int| 0 <= a < 4096 implies #[trigger] mem_byte(pmap.mem(), p * 4096 + a) == if q.offset
                    <= a < q.offset + bk.len() {
                    bk[a - q.offset]
                } else {
                    mem_byte(m1.mem(), p * 4096 + a)
                } by {
                    if p * 4096 + a != addr {
                        assert(mem_byte(pmap.mem(), p * 4096 + a) == mem_byte(s0.mem(), p * 4096 + a));
                    }
                }
                assert forall|w: int|
                    0 <= w < pmap.mem().len() && !(p * 1024 <= w < p * 1024 + 1024) implies #[trigger] pmap.mem()[w]
                    == m1.mem()[w] by {
                    assert(s0.mem()[w] == m1.mem()[w]);
                }
                assert forall|x: int| 0 <= x < pmap.npage() implies #[trigger] pmap.ref_of(x) == m1.ref_of(x) by {
                    assert(s0.ref_of(x) == m1.ref_of(x));
                }
            }
        }
        proof {
            assert(bytes.subrange(0, q.len as int) =~= bytes);
        }
    } else {
        proof {
            assert(bytes =~= Seq::<u8>::empty());
        }
    }
    let ghost m2 = *pmap;
    if !pmap.can_insert(pgdir, q.va, p) {
        return Err(KError::Invalid);
    }
    let r = pmap.page_insert(pgdir, q.va, asid, perm, p);
    proof {
        assert(m1.wf());
        assert(copied(m1, m2, p as int, q.offset as int, req_bytes(q, binary@)));
    }
    r
}

/// Whether the page managers `states` are the steps of loading the pages
/// `plan` in order, from `pre` to `post`, the last step giving `r`: all of
/// them when `r` is `Ok`, up to the failing one otherwise.
pub open spec fn seg_loaded(
    states: Seq<Pmap>,
    pre: Pmap,
    post: Pmap,
    pgdir: usize,
    asid: u32,
    perm: u32,
    b: Seq<u8>,
    plan: Seq<LoadReq>,
    r: Result<(), KError>,
) -> bool {
    &&& 1 <= states.len() <= plan.len() + 1
    &&& states[0] == pre
    &&& states[states.len() - 1] == post
    &&& forall|k: int|
        0 <= k < states.len() - 1 ==> load_post(
            #[trigger] states[k],
            states[k + 1],
            pgdir,
            asid,
            perm,
            b,
            plan[k],
            if k == states.len() - 2 {
                r
            } else {
                Ok(())
            },
        )
    &&& r is Ok ==> states.len() == plan.len() + 1
    &&& r is Err ==> states.len() >= 2
}

/// Load an elf-format segment into the address space with the page
/// directory at `pgdir` and the ASID `asid`: the pages of [seg_plan] are
/// loaded in order, see [load_page], with the segment's permission, valid
/// and, for a writable segment, dirty. The first error stops the loading
/// and is passed on.
pub fn elf_load_seg(pmap: &mut Pmap, pgdir: usize, asid: u32, ph: &Elf32Phdr, binary: &[u8]) -> (r: Result<(), KError>)
    requires
        old(pmap).wf(),
        old(pmap).is_page_kva(pgdir),
        seg_fits(*ph),
        ph.offset + ph.filesz <= binary@.len(),
    ensures
        final(pmap).wf(),
        final(pmap).npage() == old(pmap).npage(),
        r is Err ==> r == Err::<(), KError>(KError::NoMem) || r == Err::<(), KError>(KError::Invalid),
        r is Ok ==> r == Ok::<(), KError>(()),
        exists|states: Seq<Pmap>|
            seg_loaded(states, *old(pmap), *final(pmap), pgdir, asid, seg_perm(ph.flags), binary@, seg_plan(*ph), r),
{
    let mut perm = PTE_V;
    if ph.flags & PF_W > 0 {
        perm = perm | PTE_D;
    }
    proof {
        crate::utils::bits::lemma_const_bits();
        assert(perm == seg_perm(ph.flags));
    }
    let plan = seg_pages(ph);
    proof {
        lemma_plan_ok(*ph, binary@);
    }
    let ghost mut states: Seq<Pmap> = seq![*pmap];
    let mut idx: usize = 0;
    while idx < plan.len()
        invariant
            pmap.wf(),
            pmap.is_page_kva(pgdir),
            pmap.npage() == old(pmap).npage(),
            plan@ == seg_plan(*ph),
            perm == seg_perm(ph.flags),
            forall|k: int| 0 <= k < plan@.len() ==> req_ok(#[trigger] plan@[k], binary@),
            idx <= plan@.len(),
            states.len() == idx + 1,
            states[0] == *old(pmap),
            states[states.len() - 1] == *pmap,
            forall|k: int|
                0 <= k < states.len() - 1 ==> load_post(
                    #[trigger] states[k],
                    states[k + 1],
                    pgdir,
                    asid,
                    perm,
                    binary@,
                    plan@[k],
                    Ok(()),
                ),
        decreases plan@.len() - idx,
    {
        let q = plan[idx];
        let res = load_page(pmap, pgdir, asid, perm, binary, q);
        proof {
            let old_states = states;
            states = states.push(*pmap);
            assert forall|k: int| 0 <= k < states.len() - 1 implies load_post(
                #[trigger] states[k],
                states[k + 1],
                pgdir,
                asid,
                perm,
                binary@,
                plan@[k],
                if k == states.len() - 2 {
                    res
                } else {
                    Ok(())
                },
            ) by {
                if k < states.len() - 2 {
                    assert(states[k] == old_states[k]);
                    assert(states[k + 1] == old_states[k + 1]);
                }
            }
        }
        match res {
            Err(e) => {
                proof {
                    assert(seg_loaded(states, *old(pmap), *pmap, pgdir, asid, perm, binary@, plan@, res));
                }
                return Err(e);
            },
            Ok(()) => {},
        }
        idx = idx + 1;
    }
    proof {
        assert(seg_loaded(states, *old(pmap), *pmap, pgdir, asid, perm, binary@, plan@, Ok(())));
    }
    Ok(())
}

/// The offset of the `k`-th program header of the binary `b`.
pub open spec fn ph_off(b: Seq<u8>, k: int) -> int {
    le32(b, 28) + k * le16(b, 42)
}

/// Whether the `k`-th program header of the binary `b` lies within it and,
/// for a loadable segment, the segment fits in the address space and its
/// file bytes lie within `b`.
pub open spec fn ph_ok(b: Seq<u8>, k: int) -> bool {
    &&& ph_off(b, k) + ELF32_PHDR_SIZE <= b.len()
    &&& phdr_spec(b, ph_off(b, k)).stype == PT_LOAD ==> {
        &&& seg_fits(phdr_spec(b, ph_off(b, k)))
        &&& phdr_spec(b, ph_off(b, k)).offset + phdr_spec(b, ph_off(b, k)).filesz <= b.len()
    }
}

/// Whether the bytes `b` can be loaded as an executable: an ELF executable
/// whose program header table and loadable segments lie within `b`, and
/// whose segments fit in the address space.
pub open spec fn icode_ok(b: Seq<u8>) -> bool {
    &&& is_elf_exec(b)
    &&& le32(b, 28) + le16(b, 44) * le16(b, 42) <= u32::MAX
    &&& forall|k: int| 0 <= k < le16(b, 44) ==> #[trigger] ph_ok(b, k)
}

/// Whether the binary `b` can be loaded as an executable, see [icode_ok].
pub fn icode_valid(binary: &[u8]) -> (r: bool)
    ensures
        r == icode_ok(binary@),
{
    let ehdr = match Elf32Ehdr::from(binary) {
        Some(h) => h,
        None => {
            return false;
        },
    };
    let n = binary.len();
    proof {
        let a = ehdr.phnum as u64;
        let c = ehdr.phentsize as u64;
        assert(a * c <= 0xffff * 0xffff) by (nonlinear_arith)
            requires
                a <= 0xffff,
                c <= 0xffff,
        ;
    }
    let total = ehdr.phoff as u64 + (ehdr.phnum as u64) * (ehdr.phentsize as u64);
    if total > 0xffff_ffffu64 {
        return false;
    }
    let mut k: u16 = 0;
    while k < ehdr.phnum
        invariant
            ehdr_of(ehdr, binary@),
            is_elf_exec(binary@),
            n == binary@.len(),
            ehdr.phoff + ehdr.phnum * ehdr.phentsize <= u32::MAX,
            k <= ehdr.phnum,
            forall|j: int| 0 <= j < k ==> #[trigger] ph_ok(binary@, j),
        decreases ehdr.phnum - k,
    {
        proof {
            assert(ehdr.phoff + k * ehdr.phentsize <= ehdr.phoff + ehdr.phnum * ehdr.phentsize) by (nonlinear_arith)
                requires
                    k < ehdr.phnum,
            ;
        }
        let off = ehdr.phoff as usize + (k as usize) * (ehdr.phentsize as usize);
        if off > n || n - off < ELF32_PHDR_SIZE {
            proof {
                assert(!ph_ok(binary@, k as int));
            }
            return false;
        }
        let ph = Elf32Phdr::at(binary, off);
        if ph.stype == PT_LOAD {
            let fits = (ph.vaddr as u64) + (ph.filesz as u64) + 4096 <= 0xffff_ffffu64 && (ph.vaddr as u64)
                + (ph.memsz as u64) + 4096 <= 0xffff_ffffu64 && (ph.offset as u64) + (ph.filesz as u64)
                <= 0xffff_ffffu64;
            if !fits {
                proof {
                    assert(!ph_ok(binary@, k as int));
                }
                return false;
            }
            if ph.offset as usize + ph.filesz as usize > n {
                proof {
                    assert(!ph_ok(binary@, k as int));
                }
                return false;
            }
        }
        k = k + 1;
    }
    true
}

/// Whether `post` is `pre` after the `k`-th program header of the binary
/// `b` is loaded into the address space with the page directory at `pgdir`
/// and the ASID `asid`, giving `r`: a loadable segment is loaded by
/// [elf_load_seg], any other header is skipped.
#[verifier::opaque]
pub open spec fn ph_loaded(pre: Pmap, post: Pmap, pgdir: usize, asid: u32, b: Seq<u8>, k: int, r: Result<(), KError>) -> bool {
    let ph = phdr_spec(b, ph_off(b, k));
    if ph.stype == PT_LOAD {
        exists|inner: Seq<Pmap>| seg_loaded(inner, pre, post, pgdir, asid, seg_perm(ph.flags), b, seg_plan(ph), r)
    } else {
        post == pre && r == Ok::<(), KError>(())
    }
}

/// Whether the page managers `states` are the steps of loading the program
/// headers of the binary `b` in order, from `pre` to `post`, the last step
/// giving `r`: all of them when `r` is `Ok`, up to the failing one
/// otherwise.
pub open spec fn icode_loaded(states: Seq<Pmap>, pre: Pmap, post: Pmap, pgdir: usize, asid: u32, b: Seq<u8>, r: Result<(), KError>) -> bool {
    &&& 1 <= states.len() <= le16(b, 44) + 1
    &&& states[0] == pre
    &&& states[states.len() - 1] == post
    &&& forall|k: int|
        0 <= k < states.len() - 1 ==> ph_loaded(
            #[trigger] states[k],
            states[k + 1],
            pgdir,
            asid,
            b,
            k,
            if k == states.len() - 2 {
                r
            } else {
                Ok(())
            },
        )
    &&& r is Ok ==> states.len() == le16(b, 44) + 1
    &&& r is Err ==> states.len() >= 2
}

/// Load the `k`-th program header of the binary, at `off`, into the
/// address space with the page directory at `pgdir` and the ASID `asid`:
/// a loadable segment is loaded by [elf_load_seg], any other header is
/// skipped.
pub fn load_ph(pmap: &mut Pmap, pgdir: usize, asid: u32, binary: &[u8], k: usize, off: u32) -> (r: Result<(), KError>)
    requires
        old(pmap).wf(),
        old(pmap).is_page_kva(pgdir),
        icode_ok(binary@),
        k < le16(binary@, 44),
        off == ph_off(binary@, k as int),
    ensures
        final(pmap).wf(),
        final(pmap).npage() == old(pmap).npage(),
        ph_loaded(*old(pmap), *final(pmap), pgdir, asid, binary@, k as int, r),
        r is Ok ==> r == Ok::<(), KError>(()),
{
    proof {
        assert(ph_ok(binary@, k as int));
        reveal(ph_loaded);
    }
    let ph = Elf32Phdr::at(binary, off as usize);
    if ph.stype == PT_LOAD {
        elf_load_seg(pmap, pgdir, asid, &ph, binary)
    } else {
        Ok(())
    }
}

} // verus!
