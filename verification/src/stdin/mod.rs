//! Line input from the keyboard, which reaches the kernel through the UART
//! one byte at a time. The bytes of a line are kept in a fixed buffer whose
//! unused slots hold the escape character.

use vstd::prelude::*;

verus! {

/// The number of bytes a line can hold.
pub const ARR_SIZE: usize = 100;

/// The escape character, which marks an unused slot of the line buffer and,
/// typed at the keyboard, ends continuous reading.
pub const ESCAPE: u8 = 27;

/// Line feed.
pub const LINE_FEED: u8 = 10;

/// Carriage return.
pub const CARRIAGE_RETURN: u8 = 13;

/// The line being read: the buffer and how many bytes it holds.
pub struct LineReader {
    buffer: [u8; ARR_SIZE],
    arr_index: usize,
}

/// The abstract state of a line being read.
pub ghost struct LineModel {
    pub buffer: Seq<u8>,
    pub len: nat,
}

impl View for LineReader {
    type V = LineModel;

    closed spec fn view(&self) -> LineModel {
        LineModel { buffer: self.buffer@, len: self.arr_index as nat }
    }
}

impl LineModel {
    pub open spec fn wf(self) -> bool {
        &&& self.buffer.len() == ARR_SIZE
        &&& self.len <= ARR_SIZE
    }
}

/// Whether `data` ends a line: a line feed or a carriage return.
pub open spec fn ends_line(data: u8) -> bool {
    data == LINE_FEED || data == CARRIAGE_RETURN
}

/// The index of the first escape character in `buffer` from index `i` on,
/// or the buffer's length when there is none.
pub open spec fn first_escape_from(buffer: Seq<u8>, i: int) -> int
    decreases buffer.len() - i,
{
    if i < 0 || i >= buffer.len() {
        buffer.len() as int
    } else if buffer[i] == ESCAPE {
        i
    } else {
        first_escape_from(buffer, i + 1)
    }
}

/// The index of the first escape character in `buffer`, or its length when
/// there is none.
pub open spec fn first_escape(buffer: Seq<u8>) -> int {
    first_escape_from(buffer, 0)
}

impl LineReader {
    pub open spec fn wf(&self) -> bool {
        self@.wf()
    }

    /// An empty line: every slot holds the escape character.
    pub fn new() -> (r: LineReader)
        ensures
            r.wf(),
            r@.len == 0,
            r@.buffer == line_buffer(Seq::empty()),
    {
        let mut buffer = [0u8; ARR_SIZE];
        let mut index: usize = 0;
        while index < ARR_SIZE
            invariant
                index <= ARR_SIZE,
                buffer@.len() == ARR_SIZE,
                forall|i: int| 0 <= i < index ==> #[trigger] buffer@[i] == ESCAPE,
            decreases ARR_SIZE - index,
        {
            buffer[index] = ESCAPE;
            index = index + 1;
        }
        let r = LineReader { buffer, arr_index: 0 };
        assert(r@.buffer =~= line_buffer(Seq::empty()));
        r
    }

    /// How many bytes the line holds.
    pub fn stored(&self) -> (n: usize)
        ensures
            n == self@.len,
    {
        self.arr_index
    }

    /// Stores the byte `data` that the keyboard sent; gives whether the line
    /// is done: the byte ends the line, or the buffer is now full. A line
    /// holds at most `ARR_SIZE` bytes: a byte that comes when the buffer is
    /// already full is not stored, and the line is done.
    pub fn push_byte(&mut self, data: u8) -> (line_done: bool)
        requires
            old(self).wf(),
        ensures
            final(self).wf(),
            old(self)@.len < ARR_SIZE ==> {
                &&& final(self)@.buffer == old(self)@.buffer.update(old(self)@.len as int, data)
                &&& final(self)@.len == old(self)@.len + 1
                &&& line_done == (ends_line(data) || final(self)@.len == ARR_SIZE)
            },
            old(self)@.len >= ARR_SIZE ==> *final(self) == *old(self) && line_done,
    {
        if self.arr_index >= ARR_SIZE {
            return true;
        }
        self.buffer[self.arr_index] = data;
        self.arr_index = self.arr_index + 1;
        data == LINE_FEED || data == CARRIAGE_RETURN || self.arr_index == ARR_SIZE
    }

    /// The line read: `None` when the buffer holds at most one byte before
    /// its first escape character, else a copy of the whole buffer.
    pub fn finish(&self) -> (r: Option<[u8; ARR_SIZE]>)
        requires
            self.wf(),
        ensures
            first_escape(self@.buffer) <= 1 ==> r is None,
            first_escape(self@.buffer) > 1 ==> r is Some && r->0@ == self@.buffer,
    {
        let mut first_invalid_index: usize = 0;
        let mut index: usize = 0;
        while index < ARR_SIZE
            invariant
                self.wf(),
                index <= ARR_SIZE,
                first_escape(self@.buffer) == first_escape_from(self@.buffer, index as int),
                first_invalid_index == if index == 0 { 0 } else { index - 1 },
            ensures
                first_invalid_index == if first_escape(self@.buffer) == 0 {
                    0
                } else {
                    first_escape(self@.buffer) - 1
                },
            decreases ARR_SIZE - index,
        {
            if self.buffer[index] == ESCAPE {
                break;
            }
            first_invalid_index = index;
            index = index + 1;
        }
        if first_invalid_index == 0 {
            None
        } else {
            Some(self.buffer)
        }
    }
}

/// What continuous keyboard reading does with a byte.
#[derive(Debug, Clone, Copy, PartialEq, Eq, Structural)]
pub enum KeyAction {
    /// Start a new line on the screen.
    NewLine,
    /// Stop reading.
    Stop,
    /// Anything else: show the character.
    Echo,
}

/// What continuous keyboard reading does with byte `c`: a line feed or
/// carriage return starts a new line, the escape key stops the reading.
pub fn key_action(c: u8) -> (a: KeyAction)
    ensures
        ends_line(c) ==> a == KeyAction::NewLine,
        c == ESCAPE ==> a == KeyAction::Stop,
        !ends_line(c) && c != ESCAPE ==> a == KeyAction::Echo,
{
    if c == LINE_FEED || c == CARRIAGE_RETURN {
        KeyAction::NewLine
    } else if c == ESCAPE {
        KeyAction::Stop
    } else {
        KeyAction::Echo
    }
}

/// The buffer that holds the line `bytes`: the bytes, then escape
/// characters up to the end.
pub open spec fn line_buffer(bytes: Seq<u8>) -> Seq<u8> {
    Seq::new(ARR_SIZE as nat, |i: int| if i < bytes.len() { bytes[i] } else { ESCAPE })
}

/// Storing a byte in the buffer of a line appends the byte to the line: a
/// reader that starts empty and is fed `bytes` holds `line_buffer(bytes)`.
pub proof fn lemma_push_appends(bytes: Seq<u8>, data: u8)
    requires
        bytes.len() < ARR_SIZE,
    ensures
        line_buffer(bytes).update(bytes.len() as int, data) == line_buffer(bytes.push(data)),
{
    assert(line_buffer(bytes).update(bytes.len() as int, data) =~= line_buffer(bytes.push(data)));
}

proof fn lemma_first_escape_from_line(bytes: Seq<u8>, i: int)
    requires
        bytes.len() <= ARR_SIZE,
        forall|k: int| 0 <= k < bytes.len() ==> #[trigger] bytes[k] != ESCAPE,
        0 <= i <= bytes.len(),
    ensures
        first_escape_from(line_buffer(bytes), i) == bytes.len(),
    decreases bytes.len() - i,
{
    if i < bytes.len() {
        lemma_first_escape_from_line(bytes, i + 1);
    }
}

/// A line of bytes with no escape character among them is read back
/// whole when it has at least two bytes, and as nothing otherwise.
pub proof fn lemma_read_line_result(bytes: Seq<u8>)
    requires
        bytes.len() <= ARR_SIZE,
        forall|k: int| 0 <= k < bytes.len() ==> #[trigger] bytes[k] != ESCAPE,
    ensures
        first_escape(line_buffer(bytes)) == bytes.len(),
        first_escape(line_buffer(bytes)) <= 1 <==> bytes.len() <= 1,
{
    lemma_first_escape_from_line(bytes, 0);
}

} // verus!
