//! The byte heap as a sequence of chunks, and what allocating, freeing and
//! merging do to that sequence.

use vstd::prelude::*;

use super::alloc_list::{encode, taken_bit};

verus! {

/// One chunk of the byte heap: its size in bytes, header included.
pub ghost struct Chunk {
    pub size: nat,
    pub taken: bool,
}

/// The sum of the chunks' sizes.
pub open spec fn total_size(cs: Seq<Chunk>) -> nat
    decreases cs.len(),
{
    if cs.len() == 0 {
        0
    } else {
        total_size(cs.drop_last()) + cs.last().size
    }
}

/// How many bytes precede chunk `i`.
pub open spec fn chunk_offset(cs: Seq<Chunk>, i: int) -> nat {
    total_size(cs.take(i))
}

/// The bytes that taken chunks occupy.
pub open spec fn taken_bytes(cs: Seq<Chunk>) -> nat
    decreases cs.len(),
{
    if cs.len() == 0 {
        0
    } else {
        taken_bytes(cs.drop_last()) + if cs.last().taken {
            cs.last().size
        } else {
            0
        }
    }
}

/// A chunk that can hold a request of `size` bytes, header included.
pub open spec fn fits(c: Chunk, size: nat) -> bool {
    !c.taken && size <= c.size
}

/// Chunk `i` is the first that can hold `size` bytes.
pub open spec fn is_first_chunk_fit(cs: Seq<Chunk>, size: nat, i: int) -> bool {
    &&& 0 <= i < cs.len()
    &&& fits(cs[i], size)
    &&& forall|j: int| 0 <= j < i ==> !fits(#[trigger] cs[j], size)
}

pub open spec fn chunk_fit_exists(cs: Seq<Chunk>, size: nat) -> bool {
    exists|i: int| 0 <= i < cs.len() && fits(#[trigger] cs[i], size)
}

pub open spec fn first_chunk_fit(cs: Seq<Chunk>, size: nat) -> int {
    choose|i: int| is_first_chunk_fit(cs, size, i)
}

/// The chunks after taking `size` bytes from chunk `i`: what is left over
/// becomes a free chunk of its own when it is more than one header word,
/// and otherwise stays with the taken chunk.
pub open spec fn take_chunk(cs: Seq<Chunk>, i: int, size: nat) -> Seq<Chunk> {
    let c = cs[i];
    if c.size - size > 8 {
        cs.take(i) + seq![
            Chunk { size: size, taken: true },
            Chunk { size: (c.size - size) as nat, taken: false },
        ] + cs.skip(i + 1)
    } else {
        cs.update(i, Chunk { size: c.size, taken: true })
    }
}

/// The header words after taking `size` bytes from chunk `i`, which starts
/// at byte `off`.
pub open spec fn take_chunk_words(words: Seq<usize>, c: Chunk, off: nat, size: nat) -> Seq<usize> {
    if c.size - size > 8 {
        words.update((off / 8) as int, encode(size, true)).update(
            ((off + size) / 8) as int,
            encode((c.size - size) as nat, false),
        )
    } else {
        words.update((off / 8) as int, encode(c.size, true))
    }
}

/// One pass of merging, starting with the chunk at byte `off`: each free
/// chunk followed by a free chunk absorbs it, and the pass moves on past
/// the merged chunk. Gives the chunks and the header words afterwards.
pub open spec fn coalesce_spec(cs: Seq<Chunk>, words: Seq<usize>, off: nat) -> (
    Seq<Chunk>,
    Seq<usize>,
)
    decreases cs.len(),
{
    if cs.len() < 2 {
        (cs, words)
    } else if !cs[0].taken && !cs[1].taken {
        let merged = Chunk { size: cs[0].size + cs[1].size, taken: false };
        let rest = coalesce_spec(
            cs.subrange(2, cs.len() as int),
            words.update((off / 8) as int, encode(merged.size, false)),
            off + merged.size,
        );
        (seq![merged] + rest.0, rest.1)
    } else {
        let rest = coalesce_spec(cs.subrange(1, cs.len() as int), words, off + cs[0].size);
        (seq![cs[0]] + rest.0, rest.1)
    }
}

/// The header of chunk `i` is stored where the chunk begins.
pub open spec fn header_ok(cs: Seq<Chunk>, words: Seq<usize>, i: int) -> bool {
    words[(chunk_offset(cs, i) / 8) as int] == encode(cs[i].size, cs[i].taken)
}

/// A chunk is at least one word, its header, long and a whole number of
/// words.
pub open spec fn chunk_shape_ok(c: Chunk) -> bool {
    c.size >= 8 && c.size % 8 == 0
}

/// The chunks tile `total` bytes, each well shaped, each with its header in
/// place.
pub open spec fn chunks_wf(cs: Seq<Chunk>, words: Seq<usize>, total: nat) -> bool {
    &&& total < taken_bit()
    &&& words.len() * 8 == total
    &&& total_size(cs) == total
    &&& forall|i: int| 0 <= i < cs.len() ==> #[trigger] chunk_shape_ok(cs[i])
    &&& forall|i: int| 0 <= i < cs.len() ==> #[trigger] header_ok(cs, words, i)
}

pub proof fn lemma_total_concat(a: Seq<Chunk>, b: Seq<Chunk>)
    ensures
        total_size(a + b) == total_size(a) + total_size(b),
    decreases b.len(),
{
    if b.len() > 0 {
        assert((a + b).drop_last() =~= a + b.drop_last());
        lemma_total_concat(a, b.drop_last());
    } else {
        assert(a + b =~= a);
    }
}

pub proof fn lemma_taken_concat(a: Seq<Chunk>, b: Seq<Chunk>)
    ensures
        taken_bytes(a + b) == taken_bytes(a) + taken_bytes(b),
    decreases b.len(),
{
    if b.len() > 0 {
        assert((a + b).drop_last() =~= a + b.drop_last());
        lemma_taken_concat(a, b.drop_last());
    } else {
        assert(a + b =~= a);
    }
}

pub proof fn lemma_offset_step(cs: Seq<Chunk>, i: int)
    requires
        0 <= i < cs.len(),
    ensures
        chunk_offset(cs, i + 1) == chunk_offset(cs, i) + cs[i].size,
{
    assert(cs.take(i + 1).drop_last() =~= cs.take(i));
}

pub proof fn lemma_offset_zero(cs: Seq<Chunk>)
    ensures
        chunk_offset(cs, 0) == 0,
{
    assert(cs.take(0) =~= Seq::<Chunk>::empty());
}

pub proof fn lemma_offset_full(cs: Seq<Chunk>)
    ensures
        chunk_offset(cs, cs.len() as int) == total_size(cs),
{
    assert(cs.take(cs.len() as int) =~= cs);
}

/// Offsets grow with the index, by at least the sizes in between.
pub proof fn lemma_offset_mono(cs: Seq<Chunk>, i: int, j: int)
    requires
        0 <= i <= j <= cs.len(),
    ensures
        chunk_offset(cs, i) <= chunk_offset(cs, j),
        i < j ==> chunk_offset(cs, i) + cs[i].size <= chunk_offset(cs, j),
    decreases j - i,
{
    if i < j {
        lemma_offset_step(cs, j - 1);
        lemma_offset_mono(cs, i, j - 1);
        if i < j - 1 {
        } else {
        }
    }
}

pub proof fn lemma_offset_prefix(a: Seq<Chunk>, b: Seq<Chunk>, i: int)
    requires
        0 <= i <= a.len(),
    ensures
        chunk_offset(a + b, i) == chunk_offset(a, i),
{
    assert((a + b).take(i) =~= a.take(i));
}

pub proof fn lemma_offset_suffix(a: Seq<Chunk>, b: Seq<Chunk>, j: int)
    requires
        0 <= j <= b.len(),
    ensures
        chunk_offset(a + b, a.len() + j) == total_size(a) + chunk_offset(b, j),
{
    assert((a + b).take(a.len() + j) =~= a + b.take(j));
    lemma_total_concat(a, b.take(j));
}

pub proof fn lemma_offset_aligned(cs: Seq<Chunk>, i: int)
    requires
        0 <= i <= cs.len(),
        forall|k: int| 0 <= k < cs.len() ==> #[trigger] chunk_shape_ok(cs[k]),
    ensures
        chunk_offset(cs, i) % 8 == 0,
    decreases i,
{
    if i > 0 {
        lemma_offset_aligned(cs, i - 1);
        lemma_offset_step(cs, i - 1);
        assert(chunk_shape_ok(cs[i - 1]));
    } else {
        lemma_offset_zero(cs);
    }
}

pub proof fn lemma_first_chunk_fit_unique(cs: Seq<Chunk>, size: nat, i: int)
    requires
        is_first_chunk_fit(cs, size, i),
    ensures
        first_chunk_fit(cs, size) == i,
        chunk_fit_exists(cs, size),
{
    let j = first_chunk_fit(cs, size);
    assert(is_first_chunk_fit(cs, size, j));
    if j < i {
        assert(!fits(cs[j], size));
    } else if i < j {
        assert(!fits(cs[i], size));
    }
}

proof fn lemma_first_fit_below(cs: Seq<Chunk>, size: nat, j: int)
    requires
        0 <= j < cs.len(),
        fits(cs[j], size),
    ensures
        exists|i: int| is_first_chunk_fit(cs, size, i),
    decreases j,
{
    if forall|k: int| 0 <= k < j ==> !fits(#[trigger] cs[k], size) {
        assert(is_first_chunk_fit(cs, size, j));
    } else {
        let k = choose|k: int| 0 <= k < j && fits(#[trigger] cs[k], size);
        lemma_first_fit_below(cs, size, k);
    }
}

/// When some chunk can hold `size` bytes, `first_chunk_fit` names the
/// first such chunk.
pub proof fn lemma_first_chunk_fit(cs: Seq<Chunk>, size: nat)
    requires
        chunk_fit_exists(cs, size),
    ensures
        is_first_chunk_fit(cs, size, first_chunk_fit(cs, size)),
{
    let j = choose|j: int| 0 <= j < cs.len() && fits(#[trigger] cs[j], size);
    lemma_first_fit_below(cs, size, j);
}

/// Replacing chunks `p .. q` by chunks `mid` of the same total size keeps
/// the heap well formed, provided the headers of `mid` are written where
/// those chunks begin and no word outside the replaced bytes changes.
pub proof fn lemma_replace(
    cs: Seq<Chunk>,
    words: Seq<usize>,
    total: nat,
    p: int,
    q: int,
    mid: Seq<Chunk>,
    words2: Seq<usize>,
)
    requires
        chunks_wf(cs, words, total),
        0 <= p <= q <= cs.len(),
        total_size(mid) == total_size(cs.subrange(p, q)),
        forall|k: int| 0 <= k < mid.len() ==> #[trigger] chunk_shape_ok(mid[k]),
        words2.len() == words.len(),
        forall|k: int|
            0 <= k < mid.len() ==> words2[((chunk_offset(cs, p) + chunk_offset(mid, k)) / 8) as int]
                == encode(#[trigger] mid[k].size, mid[k].taken),
        forall|w: int|
            0 <= w < words.len() && !(chunk_offset(cs, p) / 8 <= w < chunk_offset(cs, q) / 8)
                ==> #[trigger] words2[w] == words[w],
    ensures
        chunks_wf(cs.take(p) + mid + cs.skip(q), words2, total),
        taken_bytes(cs.take(p) + mid + cs.skip(q)) + taken_bytes(cs.subrange(p, q))
            == taken_bytes(cs) + taken_bytes(mid),
{
    let a = cs.take(p);
    let sub = cs.subrange(p, q);
    let z = cs.skip(q);
    let ns = a + mid + z;
    assert(cs =~= a + sub + z);
    assert(ns =~= a + (mid + z));
    lemma_total_concat(a, sub);
    lemma_total_concat(a + sub, z);
    lemma_total_concat(a, mid);
    lemma_total_concat(a + mid, z);
    lemma_taken_concat(a, sub);
    lemma_taken_concat(a + sub, z);
    lemma_taken_concat(a, mid);
    lemma_taken_concat(a + mid, z);
    assert(total_size(ns) == total);
    assert(cs.take(q) =~= a + sub);
    assert(cs =~= cs.take(q) + z);
    lemma_offset_prefix(a, sub + z, p);
    assert(cs =~= a + (sub + z));
    assert(chunk_offset(cs, p) == total_size(a)) by {
        assert(a.take(p) =~= a);
    }
    assert(chunk_offset(cs, q) == total_size(a) + total_size(sub)) by {
        lemma_offset_full(cs.take(q));
        assert(cs.take(q).take(q) =~= cs.take(q));
        assert(cs.take(q) =~= a + sub);
    }
    assert forall|j: int| 0 <= j < ns.len() implies #[trigger] chunk_shape_ok(ns[j]) by {
        if j < p {
            assert(ns[j] == cs[j]);
        } else if j < p + mid.len() {
            assert(ns[j] == mid[j - p]);
        } else {
            assert(ns[j] == cs[q + (j - p - mid.len())]);
        }
    }
    assert forall|j: int| 0 <= j < ns.len() implies #[trigger] header_ok(ns, words2, j) by {
        if j < p {
            lemma_offset_prefix(a, mid + z, j);
            lemma_offset_prefix(a, sub + z, j);
            assert(ns[j] == cs[j]);
            assert(header_ok(cs, words, j));
            lemma_offset_mono(cs, j, p);
            assert(chunk_shape_ok(cs[j]));
            lemma_offset_aligned(cs, j);
            lemma_offset_aligned(cs, p);
            assert(chunk_offset(cs, j) / 8 < chunk_offset(cs, p) / 8);
            lemma_offset_mono(cs, j, cs.len() as int);
            lemma_offset_full(cs);
            assert(chunk_offset(cs, j) + 8 <= total);
        } else if j < p + mid.len() {
            let k = j - p;
            assert(ns =~= a + (mid + z));
            lemma_offset_suffix(a, mid + z, k);
            lemma_offset_prefix(mid, z, k);
            assert(ns[j] == mid[k]);
            assert(words2[((chunk_offset(cs, p) + chunk_offset(mid, k)) / 8) as int] == encode(
                mid[k].size,
                mid[k].taken,
            ));
        } else {
            let k = j - p - mid.len();
            assert(ns =~= (a + mid) + z);
            lemma_offset_suffix(a + mid, z, k);
            lemma_offset_suffix(cs.take(q), z, k);
            assert(ns[j] == cs[q + k]);
            assert(header_ok(cs, words, q + k));
            assert(chunk_offset(ns, j) == chunk_offset(cs, q + k));
            lemma_offset_mono(cs, q, q + k);
            lemma_offset_aligned(cs, q + k);
            lemma_offset_mono(cs, q + k, cs.len() as int);
            lemma_offset_full(cs);
            assert(chunk_shape_ok(cs[q + k]));
            assert(chunk_offset(cs, q + k) + 8 <= total);
        }
    }
}

/// Chunks `j` and `j + 1` are both free.
pub open spec fn free_pair(cs: Seq<Chunk>, j: int) -> bool {
    !cs[j].taken && !cs[j + 1].taken
}

/// No two neighbouring chunks are both free.
pub open spec fn is_coalesced(cs: Seq<Chunk>) -> bool {
    forall|j: int| 0 <= j < cs.len() - 1 ==> !#[trigger] free_pair(cs, j)
}

/// The chunks that a merging pass gives do not depend on the header words
/// or on where the pass starts.
pub proof fn lemma_coalesce_chunks_only(
    cs: Seq<Chunk>,
    w1: Seq<usize>,
    o1: nat,
    w2: Seq<usize>,
    o2: nat,
)
    ensures
        coalesce_spec(cs, w1, o1).0 == coalesce_spec(cs, w2, o2).0,
    decreases cs.len(),
{
    if cs.len() >= 2 {
        if !cs[0].taken && !cs[1].taken {
            let merged = cs[0].size + cs[1].size;
            lemma_coalesce_chunks_only(
                cs.subrange(2, cs.len() as int),
                w1.update((o1 / 8) as int, encode(merged, false)),
                o1 + merged,
                w2.update((o2 / 8) as int, encode(merged, false)),
                o2 + merged,
            );
        } else {
            lemma_coalesce_chunks_only(
                cs.subrange(1, cs.len() as int),
                w1,
                o1 + cs[0].size,
                w2,
                o2 + cs[0].size,
            );
        }
    }
}

/// A merging pass leaves coalesced chunks as they are.
pub proof fn lemma_coalesce_identity(cs: Seq<Chunk>, words: Seq<usize>, off: nat)
    requires
        is_coalesced(cs),
    ensures
        coalesce_spec(cs, words, off).0 == cs,
    decreases cs.len(),
{
    if cs.len() >= 2 {
        assert(!free_pair(cs, 0));
        let r = cs.subrange(1, cs.len() as int);
        assert forall|j: int| 0 <= j < r.len() - 1 implies !#[trigger] free_pair(r, j) by {
            assert(!free_pair(cs, j + 1));
        }
        lemma_coalesce_identity(r, words, off + cs[0].size);
        assert(seq![cs[0]] + r =~= cs);
    }
}

/// A merging pass copies a prefix with no two neighbouring free chunks and
/// then goes on with the rest.
pub proof fn lemma_coalesce_prefix(cs: Seq<Chunk>, words: Seq<usize>, off: nat, i: int)
    requires
        0 <= i <= cs.len(),
        forall|j: int| 0 <= j < i && j + 1 < cs.len() ==> !#[trigger] free_pair(cs, j),
    ensures
        coalesce_spec(cs, words, off).0 == cs.take(i) + coalesce_spec(
            cs.skip(i),
            words,
            0,
        ).0,
    decreases i,
{
    if i == 0 {
        assert(cs.skip(0) =~= cs);
        assert(cs.take(0) + coalesce_spec(cs, words, 0).0 =~= coalesce_spec(cs, words, 0).0);
        lemma_coalesce_chunks_only(cs, words, off, words, 0);
    } else if cs.len() < 2 {
        assert(cs.take(i) =~= cs);
        assert(cs.skip(i).len() == 0);
        assert(cs.take(i) + cs.skip(i) =~= cs);
    } else {
        assert(!free_pair(cs, 0));
        let r = cs.subrange(1, cs.len() as int);
        assert forall|j: int| 0 <= j < i - 1 && j + 1 < r.len() implies !#[trigger] free_pair(
            r,
            j,
        ) by {
            assert(!free_pair(cs, j + 1));
        }
        lemma_coalesce_prefix(r, words, off + cs[0].size, i - 1);
        assert(r.skip(i - 1) =~= cs.skip(i));
        assert(seq![cs[0]] + r.take(i - 1) =~= cs.take(i));
        assert(seq![cs[0]] + (r.take(i - 1) + coalesce_spec(cs.skip(i), words, 0).0) =~= cs.take(
            i,
        ) + coalesce_spec(cs.skip(i), words, 0).0);
    }
}

/// Chunk `j` of `out` is chunk `i` of `cs` at the same offset, or the free
/// chunk that chunk `i` and the free chunk after it were merged into.
pub open spec fn kept_or_merged(cs: Seq<Chunk>, i: int, out: Seq<Chunk>, j: int) -> bool {
    &&& 0 <= i < cs.len()
    &&& chunk_offset(out, j) == chunk_offset(cs, i)
    &&& (out[j] == cs[i] || (i + 1 < cs.len() && !cs[i].taken && !cs[i + 1].taken && out[j]
        == Chunk { size: cs[i].size + cs[i + 1].size, taken: false }))
}

/// Chunk `j` of `out` comes from some chunk of `cs`, kept or merged.
pub open spec fn comes_from(cs: Seq<Chunk>, out: Seq<Chunk>, j: int) -> bool {
    exists|i: int| #[trigger] kept_or_merged(cs, i, out, j)
}

proof fn lemma_offset_after_head(h: Seq<Chunk>, rest: Seq<Chunk>, j: int)
    requires
        0 <= j <= rest.len(),
    ensures
        chunk_offset(h + rest, h.len() + j) == total_size(h) + chunk_offset(rest, j),
{
    lemma_offset_suffix(h, rest, j);
}

/// A merging pass keeps the heap's size and its taken bytes, never makes
/// more chunks, keeps every taken chunk at its offset, and every chunk it
/// leaves is a chunk that was there, at the same offset, or the merge of a
/// free chunk with the free chunk after it.
pub proof fn lemma_coalesce_shape(cs: Seq<Chunk>, words: Seq<usize>, off: nat)
    ensures
        ({
            let out = coalesce_spec(cs, words, off).0;
            &&& total_size(out) == total_size(cs)
            &&& taken_bytes(out) == taken_bytes(cs)
            &&& out.len() <= cs.len()
            &&& forall|i: int|
                0 <= i < cs.len() && cs[i].taken ==> exists|j: int|
                    0 <= j < out.len() && out[j] == cs[i] && chunk_offset(out, j) == chunk_offset(
                        cs,
                        i,
                    )
            &&& forall|j: int| 0 <= j < out.len() ==> #[trigger] comes_from(cs, out, j)
        }),
    decreases cs.len(),
{
    let out = coalesce_spec(cs, words, off).0;
    if cs.len() < 2 {
        assert forall|j: int| 0 <= j < out.len() implies #[trigger] comes_from(cs, out, j) by {
            assert(kept_or_merged(cs, j, out, j));
        }
    } else {
        let merge = !cs[0].taken && !cs[1].taken;
        let k: int = if merge { 2 } else { 1 };
        let h = cs.take(k);
        let sub = cs.subrange(k, cs.len() as int);
        let head = if merge {
            Chunk { size: cs[0].size + cs[1].size, taken: false }
        } else {
            cs[0]
        };
        let w2 = if merge {
            words.update((off / 8) as int, encode(head.size, false))
        } else {
            words
        };
        let rest = coalesce_spec(sub, w2, off + head.size).0;
        lemma_coalesce_shape(sub, w2, off + head.size);
        assert(out == seq![head] + rest);
        assert(cs =~= h + sub);
        lemma_total_concat(h, sub);
        lemma_taken_concat(h, sub);
        lemma_total_concat(seq![head], rest);
        lemma_taken_concat(seq![head], rest);
        reveal_with_fuel(total_size, 3);
        reveal_with_fuel(taken_bytes, 3);
        assert(seq![head].drop_last() =~= Seq::<Chunk>::empty());
        if merge {
            assert(h.drop_last() =~= seq![cs[0]]);
            assert(seq![cs[0]].drop_last() =~= Seq::<Chunk>::empty());
        } else {
            assert(h.drop_last() =~= Seq::<Chunk>::empty());
        }
        assert(total_size(h) == head.size);
        assert(total_size(seq![head]) == head.size);
        assert forall|i: int| 0 <= i < cs.len() && cs[i].taken implies exists|j: int|
            0 <= j < out.len() && out[j] == cs[i] && chunk_offset(out, j) == chunk_offset(cs, i) by {
            if i < k {
                assert(!merge);
                assert(i == 0);
                lemma_offset_zero(out);
                lemma_offset_zero(cs);
                assert(out[0] == cs[0]);
            } else {
                assert(sub[i - k] == cs[i]);
                let j2 = choose|j2: int|
                    0 <= j2 < rest.len() && rest[j2] == sub[i - k] && chunk_offset(rest, j2)
                        == chunk_offset(sub, i - k);
                lemma_offset_after_head(seq![head], rest, j2);
                lemma_offset_after_head(h, sub, i - k);
                assert(out[1 + j2] == rest[j2]);
            }
        }
        assert forall|j: int| 0 <= j < out.len() implies #[trigger] comes_from(cs, out, j) by {
            if j == 0 {
                lemma_offset_zero(out);
                lemma_offset_zero(cs);
                assert(kept_or_merged(cs, 0, out, 0));
            } else {
                assert(comes_from(sub, rest, j - 1));
                let i2 = choose|i2: int| #[trigger] kept_or_merged(sub, i2, rest, j - 1);
                lemma_offset_after_head(seq![head], rest, j - 1);
                lemma_offset_after_head(h, sub, i2);
                assert(out[j] == rest[j - 1]);
                assert(cs[i2 + k] == sub[i2]);
                if i2 + 1 < sub.len() {
                    assert(cs[i2 + k + 1] == sub[i2 + 1]);
                }
                assert(kept_or_merged(cs, i2 + k, out, j));
            }
        }
    }
}

} // verus!
