//! The header word that precedes every chunk of the kernel byte heap: the
//! chunk's size in bytes, with the highest bit set while the chunk is taken.

use vstd::prelude::*;

verus! {

/// The bit of a header word that marks its chunk as taken.
pub open spec fn taken_bit() -> usize {
    1usize << ((usize::BITS - 1) as usize)
}

/// The header word of a chunk of `size` bytes.
pub open spec fn encode(size: nat, taken: bool) -> usize {
    if taken {
        (size + taken_bit()) as usize
    } else {
        size as usize
    }
}

/// The flags that a header word can carry.
pub enum AllocListFlags {
    Taken,
}

impl AllocListFlags {
    /// The bit that the flag stands for.
    pub fn val(self) -> (v: usize)
        ensures
            v == taken_bit(),
    {
        match self {
            AllocListFlags::Taken => 1usize << (usize::BITS - 1),
        }
    }
}

/// The header word after `set_size(sz)`: the size bits become those of
/// `sz`, the taken bit stays.
pub open spec fn sized(h: usize, sz: usize) -> usize {
    if h & taken_bit() != 0 {
        (sz & !taken_bit()) | taken_bit()
    } else {
        sz & !taken_bit()
    }
}

/// The header word after a run of marks, in order: `true` marks the chunk
/// taken, as `set_taken` does, and `false` marks it free, as `set_free`
/// does.
pub open spec fn marked(h: usize, marks: Seq<bool>) -> usize
    decreases marks.len(),
{
    if marks.len() == 0 {
        h
    } else {
        let h1 = if marks[0] {
            h | taken_bit()
        } else {
            h & !taken_bit()
        };
        marked(h1, marks.drop_first())
    }
}

/// The taken bit is the top bit of the word: a header is taken exactly when
/// shifting it right by one less than the word size leaves something.
pub proof fn lemma_taken_bit_is_top(x: usize)
    ensures
        (x & taken_bit() != 0) == (x >> ((usize::BITS - 1) as usize) != 0),
{
    let t = 1usize << ((usize::BITS - 1) as usize);
    assert((x & t != 0) == (x >> ((usize::BITS - 1) as usize) != 0)) by (bit_vector)
        requires
            t == 1usize << ((usize::BITS - 1) as usize),
    ;
}

/// A chunk header.
pub struct AllocList {
    pub flags_size: usize,
}

/// Facts about the taken bit: it is the top bit, and sizes below it are
/// kept apart from it.
pub proof fn lemma_taken_bit(x: usize)
    ensures
        taken_bit() >= 0x8000_0000,
        x < taken_bit() ==> (x & !taken_bit()) == x && (x & taken_bit()) == 0 && ((x
            | taken_bit()) & !taken_bit()) == x && ((x | taken_bit()) & taken_bit()) != 0 && (x
            | taken_bit()) == x + taken_bit(),
        (x & !taken_bit()) < taken_bit(),
        ((x & !taken_bit()) | taken_bit()) & taken_bit() != 0,
        ((x | taken_bit()) & taken_bit()) != 0,
        ((x & !taken_bit()) & taken_bit()) == 0,
        (x | taken_bit()) & !taken_bit() == x & !taken_bit(),
        (x & !taken_bit()) & !taken_bit() == x & !taken_bit(),
{
    let t = 1usize << ((usize::BITS - 1) as usize);
    assert(t >= 0x8000_0000 && (x < t ==> (x & !t) == x && (x & t) == 0 && ((x | t) & !t) == x && ((x | t)
        & t) != 0 && (x | t) == x + t) && (x & !t) < t && ((x & !t) | t) & t != 0 && ((x | t)
        & t) != 0 && ((x & !t) & t) == 0 && (x | t) & !t == x & !t && (x & !t) & !t == x & !t)
        by (bit_vector)
        requires
            t == 1usize << ((usize::BITS - 1) as usize),
    ;
}

impl AllocList {
    pub fn is_taken(&self) -> (b: bool)
        ensures
            b == (self.flags_size & taken_bit() != 0),
            b == (self.flags_size >> ((usize::BITS - 1) as usize) != 0),
    {
        proof {
            lemma_taken_bit_is_top(self.flags_size);
        }
        self.flags_size & AllocListFlags::Taken.val() != 0
    }

    /// Whether the chunk is free: the header's top bit is clear.
    pub fn is_free(&self) -> (b: bool)
        ensures
            b == (self.flags_size & taken_bit() == 0),
            b == (self.flags_size >> ((usize::BITS - 1) as usize) == 0),
    {
        !self.is_taken()
    }

    pub fn set_taken(&mut self)
        ensures
            final(self).flags_size == old(self).flags_size | taken_bit(),
    {
        self.flags_size = self.flags_size | AllocListFlags::Taken.val();
    }

    pub fn set_free(&mut self)
        ensures
            final(self).flags_size == old(self).flags_size & !taken_bit(),
    {
        self.flags_size = self.flags_size & !AllocListFlags::Taken.val();
    }

    /// Stores `sz` as the size, keeping the taken bit as it was.
    pub fn set_size(&mut self, sz: usize)
        ensures
            final(self).flags_size == sized(old(self).flags_size, sz),
    {
        let k = self.is_taken();
        self.flags_size = sz & !AllocListFlags::Taken.val();
        if k {
            self.flags_size = self.flags_size | AllocListFlags::Taken.val();
        }
    }

    pub fn get_size(&self) -> (s: usize)
        ensures
            s == self.flags_size & !taken_bit(),
    {
        self.flags_size & !AllocListFlags::Taken.val()
    }
}

/// Reading a header written for a chunk gives back its size and state.
pub proof fn lemma_encode_decode(size: nat, taken: bool)
    requires
        size < taken_bit(),
    ensures
        encode(size, taken) & !taken_bit() == size,
        (encode(size, taken) & taken_bit() != 0) == taken,
        encode(size, taken) == if taken {
            (size as usize) | taken_bit()
        } else {
            size as usize
        },
{
    lemma_taken_bit(size as usize);
}

/// Updating one part of a header leaves the other: marking a header taken
/// or free keeps its size, and storing a size below the taken bit keeps its
/// state and is read back unchanged.
pub proof fn lemma_header_updates(flags_size: usize, sz: usize)
    requires
        sz < taken_bit(),
    ensures
        (flags_size | taken_bit()) & taken_bit() != 0,
        (flags_size | taken_bit()) & !taken_bit() == flags_size & !taken_bit(),
        (flags_size & !taken_bit()) & taken_bit() == 0,
        (flags_size & !taken_bit()) & !taken_bit() == flags_size & !taken_bit(),
        ({
            let after = if flags_size & taken_bit() != 0 {
                (sz & !taken_bit()) | taken_bit()
            } else {
                sz & !taken_bit()
            };
            &&& after & !taken_bit() == sz
            &&& (after & taken_bit() != 0) == (flags_size & taken_bit() != 0)
        }),
{
    lemma_taken_bit(flags_size);
    lemma_taken_bit(sz);
    lemma_taken_bit(sz & !taken_bit());
}

/// Marking a header taken or free, any number of times, keeps its size;
/// after at least one mark, the last one decides whether it reads as taken.
pub proof fn lemma_marks_keep_size(h: usize, marks: Seq<bool>)
    ensures
        marked(h, marks) & !taken_bit() == h & !taken_bit(),
        marks.len() > 0 ==> (marked(h, marks) & taken_bit() != 0) == marks.last(),
    decreases marks.len(),
{
    if marks.len() > 0 {
        lemma_taken_bit(h);
        let h1 = if marks[0] {
            h | taken_bit()
        } else {
            h & !taken_bit()
        };
        lemma_marks_keep_size(h1, marks.drop_first());
        if marks.len() == 1 {
            assert(marks.drop_first().len() == 0);
        } else {
            assert(marks.drop_first().last() == marks.last());
        }
    }
}

/// The size that `set_size(sz)` stores, with `sz` below the taken bit, is
/// what `get_size` reads back, whatever marks of taken or free follow.
pub proof fn lemma_size_survives_marks(h: usize, sz: usize, marks: Seq<bool>)
    requires
        sz < taken_bit(),
    ensures
        marked(sized(h, sz), marks) & !taken_bit() == sz,
{
    lemma_header_updates(h, sz);
    lemma_marks_keep_size(sized(h, sz), marks);
}

} // verus!
