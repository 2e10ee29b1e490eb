//! The kernel byte allocator: a run of heap pages split into chunks, each
//! preceded by a one-word header holding its size and whether it is taken.
//! Requests are served first fit; freeing merges neighbouring free chunks.

pub mod alloc_list;
pub mod chunks;

use vstd::prelude::*;

use crate::page_manager::{align, lemma_alloc_in_range, zalloc, AllocOutcome, PageManager};
use alloc_list::{encode, lemma_encode_decode, lemma_taken_bit, taken_bit, AllocList};
pub use alloc_list::AllocListFlags;
use chunks::{
    chunk_fit_exists,
    chunk_offset,
    chunk_shape_ok,
    chunks_wf,
    coalesce_spec,
    first_chunk_fit,
    fits,
    header_ok,
    is_first_chunk_fit,
    lemma_first_chunk_fit_unique,
    lemma_offset_aligned,
    lemma_offset_full,
    lemma_offset_mono,
    lemma_offset_step,
    lemma_offset_zero,
    lemma_replace,
    take_chunk,
    take_chunk_words,
    taken_bytes,
    total_size,
    Chunk,
};
use vstd::arithmetic::power2::lemma2_to64;

verus! {

/// The number of pages given to the kernel byte heap.
pub const KMEM_ALLOC: usize = 512;

/// The size in bytes of a chunk header.
pub const HEADER_SIZE: usize = 8;

/// The abstract state of the byte heap: where it starts, how many pages it
/// spans, the page kept for the kernel's root table, the chunks, and the
/// heap's contents as machine words.
pub ghost struct ByteHeapModel {
    pub head: nat,
    pub num_pages: nat,
    pub page_table: nat,
    pub chunks: Seq<Chunk>,
    pub words: Seq<usize>,
}

impl ByteHeapModel {
    /// The size of the byte heap in bytes.
    pub open spec fn total(self) -> nat {
        self.num_pages * 4096
    }

    pub open spec fn wf(self) -> bool {
        &&& chunks_wf(self.chunks, self.words, self.total())
        &&& self.head + self.total() <= usize::MAX
        &&& self.head % 8 == 0
    }

    /// The address of the first byte after the header of chunk `i`.
    pub open spec fn payload(self, i: int) -> int {
        (self.head + chunk_offset(self.chunks, i) + 8) as int
    }

    /// `ptr` is the first byte after the header of some chunk.
    pub open spec fn is_payload(self, ptr: int) -> bool {
        exists|i: int| 0 <= i < self.chunks.len() && ptr == #[trigger] self.payload(i)
    }

    /// The chunk whose payload starts at `ptr`.
    pub open spec fn payload_chunk(self, ptr: int) -> int {
        choose|i: int| 0 <= i < self.chunks.len() && ptr == #[trigger] self.payload(i)
    }
}

/// `sz` rounded up to a multiple of eight.
pub open spec fn round_to_words(sz: nat) -> nat {
    if sz % 8 == 0 {
        sz
    } else {
        (sz / 8 + 1) * 8
    }
}

/// The bytes that a request for `sz` bytes takes, header included: `sz`
/// rounded up to a multiple of eight, plus one header.
pub open spec fn request_size(sz: nat) -> nat {
    round_to_words(sz) + 8
}

/// What a request for `sz` bytes does: the chunks, the words and the
/// address handed back (zero when no chunk is large enough).
pub open spec fn kmalloc_spec(m: ByteHeapModel, sz: nat) -> (ByteHeapModel, int) {
    let size = request_size(sz);
    if chunk_fit_exists(m.chunks, size) {
        let i = first_chunk_fit(m.chunks, size);
        (
            ByteHeapModel {
                chunks: take_chunk(m.chunks, i, size),
                words: take_chunk_words(
                    m.words,
                    m.chunks[i],
                    chunk_offset(m.chunks, i),
                    size,
                ),
                ..m
            },
            m.payload(i),
        )
    } else {
        (m, 0)
    }
}

/// What freeing `ptr` does: mark its chunk free if it was taken, then run
/// one merging pass over the whole heap.
pub open spec fn kfree_spec(m: ByteHeapModel, ptr: int) -> ByteHeapModel {
    if ptr == 0 {
        m
    } else {
        let i = m.payload_chunk(ptr);
        let c = m.chunks[i];
        let (cs1, w1) = if c.taken {
            (
                m.chunks.update(i, Chunk { size: c.size, taken: false }),
                m.words.update((chunk_offset(m.chunks, i) / 8) as int, encode(c.size, false)),
            )
        } else {
            (m.chunks, m.words)
        };
        let (cs2, w2) = coalesce_spec(cs1, w1, 0);
        ByteHeapModel { chunks: cs2, words: w2, ..m }
    }
}

/// The kernel byte heap.
pub struct KernelHeap {
    head: usize,
    num_pages: usize,
    page_table: usize,
    words: Vec<usize>,
    chunks: Ghost<Seq<Chunk>>,
}

impl View for KernelHeap {
    type V = ByteHeapModel;

    closed spec fn view(&self) -> ByteHeapModel {
        ByteHeapModel {
            head: self.head as nat,
            num_pages: self.num_pages as nat,
            page_table: self.page_table as nat,
            chunks: self.chunks@,
            words: self.words@,
        }
    }
}

impl KernelHeap {
    pub open spec fn wf(&self) -> bool {
        self@.wf()
    }
}

/// The address of the byte heap's first header.
pub fn get_head(heap: &KernelHeap) -> (a: usize)
    ensures
        a == heap@.head,
{
    heap.head
}

/// The address of the page kept for the kernel's root translation table.
pub fn get_page_table(heap: &KernelHeap) -> (a: usize)
    ensures
        a == heap@.page_table,
{
    heap.page_table
}

/// The number of pages the byte heap spans.
pub fn get_num_allocations(heap: &KernelHeap) -> (n: usize)
    ensures
        n == heap@.num_pages,
{
    heap.num_pages
}

} // verus!

verus! {

proof fn lemma_total_two(a: Chunk, b: Chunk)
    ensures
        total_size(seq![a, b]) == a.size + b.size,
        taken_bytes(seq![a, b]) == (if a.taken { a.size } else { 0 }) + (if b.taken {
            b.size
        } else {
            0
        }),
        taken_bytes(seq![a]) == if a.taken { a.size } else { 0 },
        total_size(seq![a]) == a.size,
        chunks::chunk_offset(seq![a, b], 1) == a.size,
        chunks::chunk_offset(seq![a, b], 0) == 0,
        chunks::chunk_offset(seq![a], 0) == 0,
{
    reveal_with_fuel(total_size, 3);
    reveal_with_fuel(taken_bytes, 3);
    assert(seq![a, b].drop_last() =~= seq![a]);
    assert(seq![a].drop_last() =~= Seq::<Chunk>::empty());
    assert(seq![a, b].take(1) =~= seq![a]);
    assert(seq![a, b].take(0) =~= Seq::<Chunk>::empty());
    assert(seq![a].take(0) =~= Seq::<Chunk>::empty());
}

proof fn lemma_total_one_sub(cs: Seq<Chunk>, i: int)
    requires
        0 <= i < cs.len(),
    ensures
        total_size(cs.subrange(i, i + 1)) == cs[i].size,
        taken_bytes(cs.subrange(i, i + 1)) == if cs[i].taken { cs[i].size } else { 0 },
{
    reveal_with_fuel(total_size, 2);
    reveal_with_fuel(taken_bytes, 2);
    assert(cs.subrange(i, i + 1).drop_last() =~= Seq::<Chunk>::empty());
}

proof fn lemma_chunk_in_heap(m: ByteHeapModel, i: int)
    requires
        m.wf(),
        0 <= i < m.chunks.len(),
    ensures
        chunk_offset(m.chunks, i) + m.chunks[i].size <= m.total(),
        chunk_offset(m.chunks, i) % 8 == 0,
        chunk_shape_ok(m.chunks[i]),
        header_ok(m.chunks, m.words, i),
        chunk_offset(m.chunks, i + 1) == chunk_offset(m.chunks, i) + m.chunks[i].size,
        (chunk_offset(m.chunks, i) / 8) < m.words.len(),
{
    lemma_offset_mono(m.chunks, i, m.chunks.len() as int);
    lemma_offset_full(m.chunks);
    lemma_offset_aligned(m.chunks, i);
    lemma_offset_step(m.chunks, i);
    assert(chunk_shape_ok(m.chunks[i]));
    assert(header_ok(m.chunks, m.words, i));
}

/// Marks chunk `i`, which starts at `cur` and can hold `size` bytes, as
/// taken, splitting off the rest as a free chunk when it is more than one
/// header word.
fn take_from_chunk(heap: &mut KernelHeap, cur: usize, size: usize, Ghost(i): Ghost<int>)
    requires
        old(heap).wf(),
        0 <= i < old(heap)@.chunks.len(),
        cur == old(heap)@.head + chunk_offset(old(heap)@.chunks, i),
        fits(old(heap)@.chunks[i], size as nat),
        size >= 8,
        size % 8 == 0,
    ensures
        final(heap).wf(),
        final(heap)@ == (ByteHeapModel {
            chunks: take_chunk(old(heap)@.chunks, i, size as nat),
            words: take_chunk_words(
                old(heap)@.words,
                old(heap)@.chunks[i],
                chunk_offset(old(heap)@.chunks, i),
                size as nat,
            ),
            ..old(heap)@
        }),
        taken_bytes(final(heap)@.chunks) == taken_bytes(old(heap)@.chunks)
            + final(heap)@.chunks[i].size,
{
    let ghost m = heap@;
    let ghost cs = m.chunks;
    let ghost off = chunk_offset(cs, i);
    let ghost c = cs[i];
    proof {
        lemma_chunk_in_heap(m, i);
        lemma_encode_decode(c.size, c.taken);
    }
    let hdr_index = (cur - heap.head) / 8;
    let mut hdr = AllocList { flags_size: heap.words[hdr_index] };
    assert(hdr.flags_size == encode(c.size, c.taken));
    let chunk_size = hdr.get_size();
    let rem = chunk_size - size;
    proof {
        lemma_taken_bit(hdr.flags_size);
        lemma_taken_bit(size);
        lemma_taken_bit(chunk_size);
    }
    hdr.set_taken();
    let ghost mid: Seq<Chunk>;
    if rem > 8 {
        let next_index = (cur + size - heap.head) / 8;
        let mut next = AllocList { flags_size: heap.words[next_index] };
        proof {
            lemma_taken_bit(next.flags_size);
            lemma_taken_bit(rem);
        }
        next.set_free();
        next.set_size(rem);
        assert(next.flags_size == encode(rem as nat, false));
        heap.words.set(next_index, next.flags_size);
        hdr.set_size(size);
        assert(hdr.flags_size == encode(size as nat, true));
        proof {
            mid = seq![
                Chunk { size: size as nat, taken: true },
                Chunk { size: rem as nat, taken: false },
            ];
            lemma_total_two(mid[0], mid[1]);
        }
    } else {
        hdr.set_size(chunk_size);
        assert(hdr.flags_size == encode(chunk_size as nat, true));
        proof {
            mid = seq![Chunk { size: chunk_size as nat, taken: true }];
            lemma_total_two(mid[0], mid[0]);
        }
    }
    heap.words.set(hdr_index, hdr.flags_size);
    proof {
        let w2 = heap.words@;
        assert(w2 == take_chunk_words(m.words, c, off, size as nat));
        lemma_total_one_sub(cs, i);
        lemma_replace(cs, m.words, m.total(), i, i + 1, mid, w2);
        assert(take_chunk(cs, i, size as nat) =~= cs.take(i) + mid + cs.skip(i + 1));
        heap.chunks = Ghost(take_chunk(cs, i, size as nat));
        assert(taken_bytes(mid) == mid[0].size) by {
            reveal_with_fuel(taken_bytes, 3);
            if mid.len() == 2 {
                assert(mid.drop_last() =~= seq![mid[0]]);
                assert(seq![mid[0]].drop_last() =~= Seq::<Chunk>::empty());
            } else {
                assert(mid.drop_last() =~= Seq::<Chunk>::empty());
            }
        }
        assert(heap@.chunks[i] == mid[0]);
    }
}

/// Hands out a chunk for `sz` bytes from the first chunk that is free and
/// large enough, splitting off what is left when it is more than one header
/// word. Returns the address just after the chunk's header, or zero when no
/// chunk is large enough.
pub fn kmalloc(heap: &mut KernelHeap, sz: usize) -> (r: usize)
    requires
        old(heap).wf(),
        sz + 15 <= usize::MAX,
    ensures
        final(heap).wf(),
        (final(heap)@, r as int) == kmalloc_spec(old(heap)@, sz as nat),
        r != 0 <==> chunk_fit_exists(old(heap)@.chunks, request_size(sz as nat)),
        r != 0 ==> taken_bytes(final(heap)@.chunks) == taken_bytes(old(heap)@.chunks)
            + final(heap)@.chunks[first_chunk_fit(old(heap)@.chunks, request_size(sz as nat))].size,
{
    proof {
        lemma2_to64();
    }
    let size = align(sz, 3) + HEADER_SIZE;
    let ghost m = heap@;
    let ghost cs = m.chunks;
    assert(size == request_size(sz as nat));
    let mut cur = heap.head;
    let tail = heap.head + heap.num_pages * 4096;
    let ghost mut i: int = 0;
    proof {
        lemma_offset_zero(cs);
    }
    while cur < tail
        invariant
            heap@ == m,
            m == old(heap)@,
            m.wf(),
            cs == m.chunks,
            size == request_size(sz as nat),
            size >= 8,
            size % 8 == 0,
            0 <= i <= cs.len(),
            cur == m.head + chunk_offset(cs, i),
            tail == m.head + m.total(),
            forall|j: int| 0 <= j < i ==> !fits(#[trigger] cs[j], size as nat),
        decreases tail - cur,
    {
        proof {
            if i == cs.len() {
                lemma_offset_full(cs);
            }
        }
        assert(i < cs.len());
        proof {
            lemma_chunk_in_heap(m, i);
            lemma_encode_decode(cs[i].size, cs[i].taken);
        }
        let hdr = AllocList { flags_size: heap.words[(cur - heap.head) / 8] };
        assert(hdr.flags_size == encode(cs[i].size, cs[i].taken));
        if hdr.is_free() && size <= hdr.get_size() {
            proof {
                lemma_first_chunk_fit_unique(cs, size as nat, i);
            }
            take_from_chunk(heap, cur, size, Ghost(i));
            return cur + 8;
        } else {
            assert(!fits(cs[i], size as nat));
            cur = cur + hdr.get_size();
            proof {
                i = i + 1;
            }
        }
    }
    proof {
        if i < cs.len() {
            lemma_chunk_in_heap(m, i);
        }
        assert(i == cs.len());
        assert(!chunk_fit_exists(cs, size as nat));
    }
    0
}

/// Merges each free chunk that is followed by a free chunk with it, in one
/// pass from the start of the heap; after a merge the pass moves on past the
/// merged chunk.
pub fn coalesce(heap: &mut KernelHeap)
    requires
        old(heap).wf(),
    ensures
        final(heap).wf(),
        final(heap)@ == (ByteHeapModel {
            chunks: coalesce_spec(old(heap)@.chunks, old(heap)@.words, 0).0,
            words: coalesce_spec(old(heap)@.chunks, old(heap)@.words, 0).1,
            ..old(heap)@
        }),
        taken_bytes(final(heap)@.chunks) == taken_bytes(old(heap)@.chunks),
{
    let ghost m0 = heap@;
    let ghost target = coalesce_spec(m0.chunks, m0.words, 0);
    let mut cur = heap.head;
    let tail = heap.head + heap.num_pages * 4096;
    let ghost mut p: int = 0;
    proof {
        lemma_offset_zero(m0.chunks);
        assert(m0.chunks.take(0) + m0.chunks.skip(0) =~= m0.chunks);
        assert(m0.chunks.skip(0) =~= m0.chunks);
        assert(m0.chunks.take(0) + target.0 =~= target.0);
    }
    loop
        invariant
            heap.wf(),
            heap@.head == m0.head,
            heap@.num_pages == m0.num_pages,
            heap@.page_table == m0.page_table,
            0 <= p <= heap@.chunks.len(),
            cur == m0.head + chunk_offset(heap@.chunks, p),
            tail == m0.head + m0.total(),
            target.0 == heap@.chunks.take(p) + coalesce_spec(
                heap@.chunks.skip(p),
                heap@.words,
                chunk_offset(heap@.chunks, p),
            ).0,
            target.1 == coalesce_spec(
                heap@.chunks.skip(p),
                heap@.words,
                chunk_offset(heap@.chunks, p),
            ).1,
            taken_bytes(heap@.chunks) == taken_bytes(m0.chunks),
        ensures
            heap.wf(),
            heap@.head == m0.head,
            heap@.num_pages == m0.num_pages,
            heap@.page_table == m0.page_table,
            target.0 == heap@.chunks,
            target.1 == heap@.words,
            taken_bytes(heap@.chunks) == taken_bytes(m0.chunks),
        decreases tail - cur,
    {
        let ghost m = heap@;
        let ghost cs = m.chunks;
        proof {
            if p < cs.len() {
                lemma_chunk_in_heap(m, p);
            } else {
                lemma_offset_full(cs);
            }
        }
        if cur >= tail {
            proof {
                if p < cs.len() {
                    assert(false);
                }
                assert(cs.skip(p) =~= Seq::<Chunk>::empty());
                assert(cs.take(p) =~= cs);
                assert(cs.take(p) + Seq::<Chunk>::empty() =~= cs);
            }
            break ;
        }
        proof {
            lemma_encode_decode(cs[p].size, cs[p].taken);
        }
        let mut hdr = AllocList { flags_size: heap.words[(cur - heap.head) / 8] };
        assert(hdr.flags_size == encode(cs[p].size, cs[p].taken));
        let size = hdr.get_size();
        if size == 0 {
            proof {
                assert(false);
            }
            break ;
        }
        let next = cur + size;
        if next >= tail {
            proof {
                if p + 1 < cs.len() {
                    lemma_chunk_in_heap(m, p + 1);
                }
                assert(p + 1 == cs.len());
                assert(cs.skip(p) =~= seq![cs[p]]);
                assert(cs.take(p) + seq![cs[p]] =~= cs);
            }
            break ;
        }
        proof {
            if p + 1 >= cs.len() {
                lemma_offset_full(cs);
            }
            lemma_chunk_in_heap(m, p + 1);
            lemma_encode_decode(cs[p + 1].size, cs[p + 1].taken);
            lemma_offset_step(cs, p);
        }
        let next_hdr = AllocList { flags_size: heap.words[(next - heap.head) / 8] };
        assert(next_hdr.flags_size == encode(cs[p + 1].size, cs[p + 1].taken));
        let ghost off = chunk_offset(cs, p);
        let ghost rest_cs = cs.skip(p);
        assert(rest_cs[0] == cs[p] && rest_cs[1] == cs[p + 1] && rest_cs.len() >= 2);
        if hdr.is_free() && next_hdr.is_free() {
            let merged_size = hdr.get_size() + next_hdr.get_size();
            proof {
                lemma_offset_mono(cs, p + 1, cs.len() as int);
                lemma_offset_full(cs);
                lemma_taken_bit(hdr.flags_size);
                lemma_taken_bit(merged_size);
            }
            hdr.set_size(merged_size);
            assert(hdr.flags_size == encode(merged_size as nat, false));
            heap.words.set((cur - heap.head) / 8, hdr.flags_size);
            proof {
                let merged = Chunk { size: merged_size as nat, taken: false };
                let mid = seq![merged];
                lemma_total_two(cs[p], cs[p + 1]);
                lemma_total_two(merged, merged);
                assert(cs.subrange(p, p + 2) =~= seq![cs[p], cs[p + 1]]);
                lemma_offset_mono(cs, p + 1, p + 2);
                lemma_replace(cs, m.words, m.total(), p, p + 2, mid, heap.words@);
                let ncs = cs.take(p) + mid + cs.skip(p + 2);
                heap.chunks = Ghost(ncs);
                assert(ncs =~= cs.take(p) + (mid + cs.skip(p + 2)));
                chunks::lemma_offset_suffix(cs.take(p), mid + cs.skip(p + 2), 1);
                chunks::lemma_offset_prefix(mid, cs.skip(p + 2), 1);
                assert(cs.take(p).take(p) =~= cs.take(p));
                assert(mid.take(1) =~= mid);
                assert(cs.take(p).len() == p);
                assert(chunk_offset(mid, 1) == merged_size);
                assert(total_size(cs.take(p)) == off);
                assert(chunk_offset(cs.take(p) + (mid + cs.skip(p + 2)), p + 1) == off + merged_size);
                assert(chunk_offset(ncs, p + 1) == off + merged_size);
                assert(ncs.skip(p + 1) =~= rest_cs.subrange(2, rest_cs.len() as int));
                assert(ncs.take(p + 1) =~= cs.take(p) + mid);
                p = p + 1;
            }
            cur = cur + merged_size;
        } else {
            proof {
                assert(cs.skip(p + 1) =~= rest_cs.subrange(1, rest_cs.len() as int));
                assert(cs.take(p + 1) =~= cs.take(p) + seq![cs[p]]);
                p = p + 1;
            }
            cur = cur + size;
        }
    }
}

/// Freeing chunk `i` keeps the heap well formed.
proof fn lemma_free_chunk(m: ByteHeapModel, i: int)
    requires
        m.wf(),
        0 <= i < m.chunks.len(),
        m.chunks[i].taken,
    ensures
        ({
            let c = m.chunks[i];
            let cs1 = m.chunks.update(i, Chunk { size: c.size, taken: false });
            let w1 = m.words.update((chunk_offset(m.chunks, i) / 8) as int, encode(c.size, false));
            &&& chunks_wf(cs1, w1, m.total())
            &&& taken_bytes(cs1) + c.size == taken_bytes(m.chunks)
        }),
{
    let c = m.chunks[i];
    let cs = m.chunks;
    let mid = seq![Chunk { size: c.size, taken: false }];
    lemma_chunk_in_heap(m, i);
    lemma_total_two(mid[0], mid[0]);
    lemma_total_one_sub(cs, i);
    let w1 = m.words.update((chunk_offset(cs, i) / 8) as int, encode(c.size, false));
    assert(mid.take(0) =~= Seq::<Chunk>::empty());
    lemma_replace(cs, m.words, m.total(), i, i + 1, mid, w1);
    assert(cs.update(i, Chunk { size: c.size, taken: false }) =~= cs.take(i) + mid + cs.skip(i + 1));
}

/// Two different chunks have different payload addresses.
proof fn lemma_payload_unique(m: ByteHeapModel, i: int, j: int)
    requires
        m.wf(),
        0 <= i < m.chunks.len(),
        0 <= j < m.chunks.len(),
        m.payload(i) == m.payload(j),
    ensures
        i == j,
{
    if i < j {
        lemma_offset_mono(m.chunks, i, j);
        lemma_chunk_in_heap(m, i);
    } else if j < i {
        lemma_offset_mono(m.chunks, j, i);
        lemma_chunk_in_heap(m, j);
    }
}

/// Frees the chunk whose payload starts at `ptr` (nothing for zero), then
/// merges neighbouring free chunks.
pub fn kfree(heap: &mut KernelHeap, ptr: usize)
    requires
        old(heap).wf(),
        ptr == 0 || old(heap)@.is_payload(ptr as int),
    ensures
        final(heap).wf(),
        final(heap)@ == kfree_spec(old(heap)@, ptr as int),
{
    if ptr != 0 {
        let ghost m = heap@;
        let ghost i = m.payload_chunk(ptr as int);
        proof {
            lemma_chunk_in_heap(m, i);
            lemma_encode_decode(m.chunks[i].size, m.chunks[i].taken);
            lemma_taken_bit(encode(m.chunks[i].size, m.chunks[i].taken));
        }
        let p = ptr - 8;
        let index = (p - heap.head) / 8;
        let mut hdr = AllocList { flags_size: heap.words[index] };
        assert(hdr.flags_size == encode(m.chunks[i].size, m.chunks[i].taken));
        if hdr.is_taken() {
            hdr.set_free();
            heap.words.set(index, hdr.flags_size);
            proof {
                lemma_free_chunk(m, i);
                heap.chunks = Ghost(
                    m.chunks.update(i, Chunk { size: m.chunks[i].size, taken: false }),
                );
            }
        }
        coalesce(heap);
    }
}

/// Whether `ptr` is the first byte after the header of some chunk.
pub fn is_chunk_payload(heap: &KernelHeap, ptr: usize) -> (b: bool)
    requires
        heap.wf(),
    ensures
        b == heap@.is_payload(ptr as int),
{
    let ghost m = heap@;
    let ghost cs = m.chunks;
    let mut cur = heap.head;
    let tail = heap.head + heap.num_pages * 4096;
    let ghost mut i: int = 0;
    proof {
        lemma_offset_zero(cs);
    }
    while cur < tail
        invariant
            heap@ == m,
            m.wf(),
            cs == m.chunks,
            0 <= i <= cs.len(),
            cur == m.head + chunk_offset(cs, i),
            tail == m.head + m.total(),
            forall|j: int| 0 <= j < i ==> #[trigger] m.payload(j) != ptr,
        decreases tail - cur,
    {
        proof {
            if i == cs.len() {
                lemma_offset_full(cs);
            }
            lemma_chunk_in_heap(m, i);
            lemma_encode_decode(cs[i].size, cs[i].taken);
        }
        if cur + 8 == ptr {
            assert(m.payload(i) == ptr);
            return true;
        }
        let hdr = AllocList { flags_size: heap.words[(cur - heap.head) / 8] };
        cur = cur + hdr.get_size();
        proof {
            i = i + 1;
        }
    }
    proof {
        if i < cs.len() {
            lemma_chunk_in_heap(m, i);
        }
    }
    false
}

/// The words with positions `lo .. hi` set to zero.
pub open spec fn zeroed_words(words: Seq<usize>, lo: int, hi: int) -> Seq<usize> {
    Seq::new(words.len(), |w: int| if lo <= w < hi { 0usize } else { words[w] })
}

/// Taking from chunk `i` leaves the chunks before it in place and makes
/// chunk `i` a taken chunk at least as large as the request; the taken
/// bytes grow by its size.
pub proof fn lemma_take_chunk_shape(cs: Seq<Chunk>, i: int, size: nat)
    requires
        0 <= i < cs.len(),
        fits(cs[i], size),
    ensures
        take_chunk(cs, i, size).len() >= cs.len(),
        take_chunk(cs, i, size)[i].taken,
        size <= take_chunk(cs, i, size)[i].size <= cs[i].size,
        chunk_offset(take_chunk(cs, i, size), i) == chunk_offset(cs, i),
        taken_bytes(take_chunk(cs, i, size)) == taken_bytes(cs) + take_chunk(cs, i, size)[i].size,
{
    let c = cs[i];
    let a = cs.take(i);
    let z = cs.skip(i + 1);
    let mid = if c.size - size > 8 {
        seq![Chunk { size: size, taken: true }, Chunk { size: (c.size - size) as nat, taken: false }]
    } else {
        seq![Chunk { size: c.size, taken: true }]
    };
    let t = take_chunk(cs, i, size);
    assert(t =~= a + mid + z);
    assert(t =~= a + (mid + z));
    assert(cs =~= a + seq![c] + z);
    chunks::lemma_offset_prefix(a, mid + z, i);
    assert(cs =~= a + (seq![c] + z));
    chunks::lemma_offset_prefix(a, seq![c] + z, i);
    chunks::lemma_taken_concat(a, mid);
    chunks::lemma_taken_concat(a + mid, z);
    chunks::lemma_taken_concat(a, seq![c]);
    chunks::lemma_taken_concat(a + seq![c], z);
    lemma_total_two(c, c);
    lemma_total_two(mid[0], c);
    if mid.len() == 2 {
        lemma_total_two(mid[0], mid[1]);
        assert(mid =~= seq![mid[0], mid[1]]);
    } else {
        assert(mid =~= seq![mid[0]]);
    }
    assert(taken_bytes(mid) == mid[0].size);
    assert(t[i] == mid[0]);
}

/// Like `kmalloc`, and zeroes the bytes asked for.
pub fn kzmalloc(heap: &mut KernelHeap, sz: usize) -> (r: usize)
    requires
        old(heap).wf(),
        sz + 15 <= usize::MAX,
    ensures
        final(heap).wf(),
        ({
            let size = round_to_words(sz as nat);
            let (m1, r1) = kmalloc_spec(old(heap)@, size);
            &&& r == r1
            &&& final(heap)@ == if r == 0 {
                m1
            } else {
                ByteHeapModel {
                    words: zeroed_words(
                        m1.words,
                        (r - m1.head) / 8,
                        (r - m1.head) / 8 + size / 8,
                    ),
                    ..m1
                }
            }
        }),
{
    proof {
        lemma2_to64();
    }
    let size = align(sz, 3);
    let ghost m0 = heap@;
    let ret = kmalloc(heap, size);
    if ret != 0 {
        let ghost m1 = heap@;
        let ghost i = first_chunk_fit(m0.chunks, request_size(size as nat));
        proof {
            chunks::lemma_first_chunk_fit(m0.chunks, request_size(size as nat));
            lemma_take_chunk_shape(m0.chunks, i, request_size(size as nat));
            lemma_chunk_in_heap(m1, i);
        }
        let lo = (ret - heap.head) / 8;
        let hi = lo + size / 8;
        let mut w = lo;
        assert(m1.words =~= zeroed_words(m1.words, lo as int, lo as int));
        while w < hi
            invariant
                heap@ == (ByteHeapModel { words: zeroed_words(m1.words, lo as int, w as int), ..m1 }),
                lo <= w <= hi,
                hi <= m1.words.len(),
            decreases hi - w,
        {
            heap.words.set(w, 0usize);
            w = w + 1;
            assert(heap.words@ =~= zeroed_words(m1.words, lo as int, w as int));
        }
        proof {
            let cs = m1.chunks;
            let mid = seq![cs[i]];
            lemma_total_two(cs[i], cs[i]);
            lemma_total_one_sub(cs, i);
            assert(mid.take(0) =~= Seq::<Chunk>::empty());
            lemma_replace(cs, m1.words, m1.total(), i, i + 1, mid, heap.words@);
            assert(cs.take(i) + mid + cs.skip(i + 1) =~= cs);
        }
    }
    ret
}

/// The byte heap's contents at start-up: one free chunk spanning it all.
pub open spec fn initial_words() -> Seq<usize> {
    Seq::new(
        (KMEM_ALLOC * 4096 / 8) as nat,
        |w: int| if w == 0 { encode((KMEM_ALLOC * 4096) as nat, false) } else { 0usize },
    )
}

/// Sets up the kernel byte heap: allocates its pages and one more page for
/// the kernel's root translation table, and makes the whole heap one free
/// chunk. `None` when the page allocator cannot supply the pages.
#[verifier::spinoff_prover]
#[verifier::rlimit(80)]
pub fn init_kernel_byte_allocation(pm: &mut PageManager) -> (r: Option<KernelHeap>)
    requires
        old(pm).wf(),
        old(pm)@.layout.num_of_allocations_done + KMEM_ALLOC + 1 <= usize::MAX,
    ensures
        final(pm).wf(),
        ({
            let (m1, o1) = old(pm)@.alloc_spec(KMEM_ALLOC as int);
            match o1 {
                AllocOutcome::Allocated(i) => {
                    let (m2, o2) = m1.alloc_spec(1);
                    &&& final(pm)@ == m2
                    &&& match o2 {
                        AllocOutcome::Allocated(k) => {
                            &&& r is Some
                            &&& r->0.wf()
                            &&& r->0@ == (ByteHeapModel {
                                head: old(pm)@.page_addr(i) as nat,
                                num_pages: KMEM_ALLOC as nat,
                                page_table: m1.page_addr(k) as nat,
                                chunks: seq![
                                    Chunk { size: (KMEM_ALLOC * 4096) as nat, taken: false },
                                ],
                                words: initial_words(),
                            })
                        },
                        _ => r is None,
                    }
                },
                _ => final(pm)@ == m1 && r is None,
            }
        }),
{
    let ghost m0 = pm@;
    let k_alloc_result = zalloc(pm, KMEM_ALLOC);
    let first_address = match k_alloc_result {
        Ok(address) => address,
        Err(_) => {
            return None;
        },
    };
    proof {
        lemma_alloc_in_range(m0, KMEM_ALLOC as int);
    }
    let ghost m1 = pm@;
    let root_table_address = match zalloc(pm, 1) {
        Ok(address) => address,
        Err(_) => {
            return None;
        },
    };
    proof {
        lemma_alloc_in_range(m1, 1);
    }
    let total: usize = KMEM_ALLOC * 4096;
    let num_words = total / 8;
    let mut words: Vec<usize> = Vec::new();
    let mut w: usize = 0;
    while w < num_words
        invariant
            w <= num_words,
            num_words == KMEM_ALLOC * 4096 / 8,
            words@.len() == w,
            forall|k: int| 0 <= k < w ==> #[trigger] words@[k] == 0usize,
        decreases num_words - w,
    {
        words.push(0usize);
        w = w + 1;
    }
    let mut first = AllocList { flags_size: words[0] };
    proof {
        lemma_taken_bit(first.flags_size);
        lemma_taken_bit(total);
    }
    first.set_free();
    first.set_size(total);
    words.set(0, first.flags_size);
    let ghost cs0: Seq<Chunk> = Seq::empty().push(Chunk { size: total as nat, taken: false });
    let chunks_g: Ghost<Seq<Chunk>> = Ghost(cs0);
    let heap = KernelHeap {
        head: first_address,
        num_pages: KMEM_ALLOC,
        page_table: root_table_address,
        words,
        chunks: chunks_g,
    };
    proof {
        let c = Chunk { size: total as nat, taken: false };
        lemma_total_two(c, c);
        assert(heap@.words =~= initial_words());
        assert(header_ok(heap@.chunks, heap@.words, 0));
        assert(chunk_shape_ok(heap@.chunks[0]));
    }
    Some(heap)
}

/// The chunks in address order: (header address, size, taken).
pub fn kmem_table(heap: &KernelHeap) -> (v: Vec<(usize, usize, bool)>)
    requires
        heap.wf(),
    ensures
        v@.len() == heap@.chunks.len(),
        forall|j: int|
            0 <= j < v@.len() ==> #[trigger] v@[j] == (
                (heap@.head + chunk_offset(heap@.chunks, j)) as usize,
                heap@.chunks[j].size as usize,
                heap@.chunks[j].taken,
            ),
{
    let ghost m = heap@;
    let ghost cs = m.chunks;
    let mut out: Vec<(usize, usize, bool)> = Vec::new();
    let mut cur = heap.head;
    let tail = heap.head + heap.num_pages * 4096;
    let ghost mut i: int = 0;
    proof {
        lemma_offset_zero(cs);
    }
    while cur < tail
        invariant
            heap@ == m,
            m.wf(),
            cs == m.chunks,
            0 <= i <= cs.len(),
            cur == m.head + chunk_offset(cs, i),
            tail == m.head + m.total(),
            out@.len() == i,
            forall|j: int|
                0 <= j < i ==> #[trigger] out@[j] == (
                    (m.head + chunk_offset(cs, j)) as usize,
                    cs[j].size as usize,
                    cs[j].taken,
                ),
        decreases tail - cur,
    {
        proof {
            if i == cs.len() {
                lemma_offset_full(cs);
            }
            lemma_chunk_in_heap(m, i);
            lemma_encode_decode(cs[i].size, cs[i].taken);
        }
        let hdr = AllocList { flags_size: heap.words[(cur - heap.head) / 8] };
        out.push((cur, hdr.get_size(), hdr.is_taken()));
        cur = cur + hdr.get_size();
        proof {
            i = i + 1;
        }
    }
    proof {
        if i < cs.len() {
            lemma_chunk_in_heap(m, i);
        }
    }
    out
}

/// Taking `size` bytes from chunk `i` keeps the heap well formed.
proof fn lemma_take_wf(m: ByteHeapModel, i: int, size: nat)
    requires
        m.wf(),
        0 <= i < m.chunks.len(),
        fits(m.chunks[i], size),
        size >= 8,
        size % 8 == 0,
    ensures
        (ByteHeapModel {
            chunks: take_chunk(m.chunks, i, size),
            words: take_chunk_words(m.words, m.chunks[i], chunk_offset(m.chunks, i), size),
            ..m
        }).wf(),
{
    let cs = m.chunks;
    let c = cs[i];
    let off = chunk_offset(cs, i);
    let w2 = take_chunk_words(m.words, c, off, size);
    lemma_chunk_in_heap(m, i);
    lemma_total_one_sub(cs, i);
    let mid = if c.size - size > 8 {
        seq![Chunk { size: size, taken: true }, Chunk { size: (c.size - size) as nat, taken: false }]
    } else {
        seq![Chunk { size: c.size, taken: true }]
    };
    if mid.len() == 2 {
        lemma_total_two(mid[0], mid[1]);
        assert((off + size) / 8 != off / 8);
        assert((off + size) / 8 < (off + c.size) / 8);
    } else {
        lemma_total_two(mid[0], mid[0]);
    }
    assert(mid.take(0) =~= Seq::<Chunk>::empty());
    lemma_replace(cs, m.words, m.total(), i, i + 1, mid, w2);
    assert(take_chunk(cs, i, size) =~= cs.take(i) + mid + cs.skip(i + 1));
}

/// A request leaves the heap well formed.
pub proof fn lemma_kmalloc_spec_wf(m: ByteHeapModel, sz: nat)
    requires
        m.wf(),
    ensures
        kmalloc_spec(m, sz).0.wf(),
{
    let size = request_size(sz);
    if chunk_fit_exists(m.chunks, size) {
        chunks::lemma_first_chunk_fit(m.chunks, size);
        lemma_take_wf(m, first_chunk_fit(m.chunks, size), size);
    }
}

/// Freeing the address that a request just handed out gives back the chunks
/// as they were, provided no two neighbouring chunks were free before the
/// request.
#[verifier::rlimit(40)]
pub proof fn lemma_kfree_undoes_kmalloc(m: ByteHeapModel, sz: nat)
    requires
        m.wf(),
        chunks::is_coalesced(m.chunks),
        kmalloc_spec(m, sz).1 != 0,
    ensures
        ({
            let (m1, r) = kmalloc_spec(m, sz);
            let m2 = kfree_spec(m1, r);
            &&& m2.chunks == m.chunks
            &&& m2.head == m.head
            &&& m2.num_pages == m.num_pages
            &&& m2.page_table == m.page_table
        }),
{
    let cs = m.chunks;
    let size = request_size(sz);
    let (m1, r) = kmalloc_spec(m, sz);
    assert(chunk_fit_exists(cs, size));
    chunks::lemma_first_chunk_fit(cs, size);
    let i = first_chunk_fit(cs, size);
    lemma_take_chunk_shape(cs, i, size);
    lemma_kmalloc_spec_wf(m, sz);
    let t = m1.chunks;
    assert(r == m1.payload(i));
    assert(m1.is_payload(r));
    let j = m1.payload_chunk(r);
    lemma_payload_unique(m1, i, j);
    let c = t[i];
    let cs1 = t.update(i, Chunk { size: c.size, taken: false });
    let m2 = kfree_spec(m1, r);
    assert(m2.chunks == coalesce_spec(cs1, m2.words, 0).0) by {
        let w1 = m1.words.update((chunk_offset(t, i) / 8) as int, encode(c.size, false));
        chunks::lemma_coalesce_chunks_only(cs1, w1, 0, m2.words, 0);
    }
    let a = cs.take(i);
    let z = cs.skip(i + 1);
    assert forall|k: int| 0 <= k < z.len() - 1 implies !#[trigger] chunks::free_pair(z, k) by {
        assert(!chunks::free_pair(cs, i + 1 + k));
    }
    if cs[i].size - size > 8 {
        let rem = (cs[i].size - size) as nat;
        let pair = seq![Chunk { size: size, taken: false }, Chunk { size: rem, taken: false }];
        assert(cs1 =~= a + pair + z);
        assert forall|k: int| 0 <= k < i && k + 1 < cs1.len() implies !#[trigger] chunks::free_pair(
            cs1,
            k,
        ) by {
            assert(!chunks::free_pair(cs, k));
        }
        chunks::lemma_coalesce_prefix(cs1, m2.words, 0, i);
        assert(cs1.take(i) =~= a);
        assert(cs1.skip(i) =~= pair + z);
        let rest = pair + z;
        assert(rest.subrange(2, rest.len() as int) =~= z);
        let merged = Chunk { size: cs[i].size, taken: false };
        let wm = m2.words.update(0, encode(merged.size, false));
        chunks::lemma_coalesce_identity(z, wm, merged.size);
        assert(coalesce_spec(rest, m2.words, 0).0 =~= seq![merged] + z);
        assert(cs =~= a + seq![merged] + z);
    } else {
        assert(cs1 =~= cs);
        chunks::lemma_coalesce_identity(cs, m2.words, 0);
    }
}

/// What a request hands out lies inside the heap, in a taken chunk that
/// holds the header and at least the bytes asked for, rounded up to a
/// multiple of eight.
pub proof fn lemma_kmalloc_gives_room(m: ByteHeapModel, sz: nat)
    requires
        m.wf(),
        kmalloc_spec(m, sz).1 != 0,
    ensures
        ({
            let (m1, r) = kmalloc_spec(m, sz);
            let i = first_chunk_fit(m.chunks, request_size(sz));
            &&& 0 <= i < m1.chunks.len()
            &&& m1.chunks[i].taken
            &&& r == m1.payload(i)
            &&& m1.chunks[i].size >= request_size(sz)
            &&& m.head + 8 <= r
            &&& r + request_size(sz) - 8 <= m.head + m.total()
        }),
{
    let size = request_size(sz);
    chunks::lemma_first_chunk_fit(m.chunks, size);
    let i = first_chunk_fit(m.chunks, size);
    lemma_take_chunk_shape(m.chunks, i, size);
    lemma_kmalloc_spec_wf(m, sz);
    let m1 = kmalloc_spec(m, sz).0;
    lemma_chunk_in_heap(m1, i);
}

/// Two requests in a row get bytes that do not overlap: a second request
/// never hands out any byte of the first.
pub proof fn lemma_kmalloc_disjoint(m: ByteHeapModel, sz1: nat, sz2: nat)
    requires
        m.wf(),
        kmalloc_spec(m, sz1).1 != 0,
        kmalloc_spec(kmalloc_spec(m, sz1).0, sz2).1 != 0,
    ensures
        ({
            let (m1, r1) = kmalloc_spec(m, sz1);
            let r2 = kmalloc_spec(m1, sz2).1;
            r1 + request_size(sz1) - 8 <= r2 || r2 + request_size(sz2) - 8 <= r1
        }),
{
    let (m1, r1) = kmalloc_spec(m, sz1);
    let i1 = first_chunk_fit(m.chunks, request_size(sz1));
    lemma_kmalloc_gives_room(m, sz1);
    lemma_kmalloc_spec_wf(m, sz1);
    let s2 = request_size(sz2);
    chunks::lemma_first_chunk_fit(m1.chunks, s2);
    let i2 = first_chunk_fit(m1.chunks, s2);
    assert(i2 != i1);
    lemma_chunk_in_heap(m1, i2);
    lemma_chunk_in_heap(m1, i1);
    if i1 < i2 {
        lemma_offset_mono(m1.chunks, i1, i2);
    } else {
        lemma_offset_mono(m1.chunks, i2, i1);
    }
}

} // verus!
