use vstd::prelude::*;
use vstd::slice::slice_subrange;
use vstd::slice::slice_to_vec;

use crate::Error;

verus! {

/// Capacity of a buffer made by `Buffer::default`: twenty mebibytes.
pub const BUFFER_SIZE: usize = 20971520;

/// Folds an offset below twice the ring length back into the ring.
pub open spec fn wrap(x: int, len: int) -> int {
    if x < len {
        x
    } else {
        x - len
    }
}

/// Offset of physical slot `j` from the run start `begin`, counted around the ring.
pub open spec fn ring_offset(j: int, begin: int, len: int) -> int {
    if j >= begin {
        j - begin
    } else {
        j + len - begin
    }
}

/// The `length` elements of `data` that start at `begin` and run around the end.
pub open spec fn ring_run<T>(data: Seq<T>, begin: int, length: int) -> Seq<T> {
    Seq::new(length as nat, |i: int| data[wrap(begin + i, data.len() as int)])
}

/// What a buffer holds, as seen from outside.
pub struct BufferView {
    /// The bytes held, oldest first: committed and scanned ones alike.
    pub content: Seq<u8>,
    /// How many of them the lookahead has passed over.
    pub scan: nat,
    /// How many bytes the buffer can hold at once.
    pub capacity: nat,
}

/// Whether `n` more bytes fit in the free room of a buffer.
pub open spec fn write_fits(v: BufferView, n: nat) -> bool {
    v.content.len() + n <= v.capacity
}

/// A buffer once `bytes` have been appended to it.
pub open spec fn appended(v: BufferView, bytes: Seq<u8>) -> BufferView {
    BufferView { content: v.content + bytes, ..v }
}

/// Filling an empty buffer with `first` leaves no room for `second` when the two
/// together are one byte more than the capacity; the first write fits.
pub proof fn lemma_fill_then_overflow(v: BufferView, first: Seq<u8>, second: Seq<u8>)
    requires
        v.content.len() == 0,
        first.len() <= v.capacity,
        second.len() == v.capacity - first.len() + 1,
    ensures
        write_fits(v, first.len()),
        !write_fits(appended(v, first), second.len()),
{
}

/// Ring buffer for stream parsing: a fixed window of bytes with a scan cursor.
#[derive(Debug)]
pub struct Buffer {
    head: usize,
    size: usize,
    scan: usize,
    data: Vec<u8>,
}

impl View for Buffer {
    type V = BufferView;

    closed spec fn view(&self) -> BufferView {
        BufferView {
            content: ring_run(self.data@, self.head as int, self.size as int),
            scan: self.scan as nat,
            capacity: self.data@.len(),
        }
    }
}

impl Buffer {
    /// The cursors lie inside the window and the window inside the storage.
    pub closed spec fn wf(&self) -> bool {
        &&& self.scan <= self.size <= self.data@.len()
        &&& (self.head < self.data@.len() || (self.head == 0 && self.data@.len() == 0))
    }

    /// A well-formed buffer holds no more than its capacity, and scans no more than it holds.
    pub proof fn lemma_bounds(&self)
        requires
            self.wf(),
        ensures
            self@.scan <= self@.content.len() <= self@.capacity,
    {
    }

    /// Physical slot of logical offset `i`.
    pub closed spec fn physical_index(&self, i: int) -> int {
        wrap(self.head + i, self.data@.len() as int)
    }

    /// An empty buffer that holds up to `capacity` bytes.
    pub fn new(capacity: usize) -> (r: Buffer)
        ensures
            r.wf(),
            r@.content == Seq::<u8>::empty(),
            r@.scan == 0,
            r@.capacity == capacity,
    {
        let r = Buffer { head: 0, size: 0, scan: 0, data: vec![0u8; capacity] };
        assert(r@.content =~= Seq::<u8>::empty());
        r
    }

    /// How many bytes the buffer can hold at once.
    pub fn capacity(&self) -> (r: usize)
        requires
            self.wf(),
        ensures
            r == self@.capacity,
    {
        self.data.len()
    }

    /// How many bytes are held, scanned or not.
    pub fn len(&self) -> (r: usize)
        requires
            self.wf(),
        ensures
            r == self@.content.len(),
    {
        self.size
    }

    /// How many held bytes the lookahead has not passed over yet.
    pub fn unscanned_len(&self) -> (r: usize)
        requires
            self.wf(),
        ensures
            r == self@.content.len() - self@.scan,
    {
        self.size - self.scan
    }

    /// Physical slot of the logical offset `length`.
    pub fn calc_index(&self, length: usize) -> (r: usize)
        requires
            self.wf(),
            length <= self@.capacity,
        ensures
            r == self.physical_index(length as int),
            self@.capacity > 0 ==> r < self@.capacity,
    {
        if length < self.data.len() - self.head {
            self.head + length
        } else {
            length - (self.data.len() - self.head)
        }
    }

    /// Hands out the byte at the scan cursor and moves the cursor past it.
    pub fn next(&mut self) -> (r: Option<u8>)
        requires
            old(self).wf(),
        ensures
            final(self).wf(),
            final(self)@.content == old(self)@.content,
            final(self)@.capacity == old(self)@.capacity,
            old(self)@.scan < old(self)@.content.len() ==> {
                &&& r == Some(old(self)@.content[old(self)@.scan as int])
                &&& final(self)@.scan == old(self)@.scan + 1
            },
            old(self)@.scan >= old(self)@.content.len() ==> {
                &&& r.is_none()
                &&& final(self)@.scan == old(self)@.scan
            },
    {
        if self.scan < self.size {
            let index = self.calc_index(self.scan);
            let result = self.data[index];
            self.scan = self.scan + 1;
            Some(result)
        } else {
            None
        }
    }

    /// Moves the scan cursor forward by up to `n` bytes; returns how far it went.
    pub fn consume(&mut self, n: usize) -> (r: usize)
        requires
            old(self).wf(),
        ensures
            final(self).wf(),
            final(self)@.content == old(self)@.content,
            final(self)@.capacity == old(self)@.capacity,
            r == (if n <= old(self)@.content.len() - old(self)@.scan {
                n as int
            } else {
                old(self)@.content.len() - old(self)@.scan
            }),
            final(self)@.scan == old(self)@.scan + r,
    {
        let old_scan = self.scan;
        if n <= self.size - self.scan {
            self.scan = self.scan + n;
        } else {
            self.scan = self.size;
        }
        self.scan - old_scan
    }

    /// Takes the scanned bytes out of the buffer and puts the cursor back at the start.
    pub fn pop_scanned_buffer(&mut self) -> (r: Vec<u8>)
        requires
            old(self).wf(),
        ensures
            final(self).wf(),
            r@ == old(self)@.content.take(old(self)@.scan as int),
            final(self)@.content == old(self)@.content.skip(old(self)@.scan as int),
            final(self)@.scan == 0,
            final(self)@.capacity == old(self)@.capacity,
    {
        if self.scan == 0 {
            assert(self@.content.skip(0) =~= self@.content);
            return Vec::new();
        }
        let ghost before = self@.content;
        let data = ring_slice(self.data.as_slice(), self.head, self.scan);
        let mut result = slice_to_vec(data.0);
        let mut second = slice_to_vec(data.1);
        result.append(&mut second);

        self.head = self.calc_index(self.scan);
        self.size = self.size - self.scan;
        self.scan = 0;
        assert(result@ =~= before.take(old(self)@.scan as int));
        assert(self@.content =~= before.skip(old(self)@.scan as int));
        result
    }

    /// Appends all of `buf`, or nothing when it does not fit in the free room.
    pub fn write(&mut self, buf: &[u8]) -> (r: Result<usize, Error>)
        requires
            old(self).wf(),
        ensures
            final(self).wf(),
            write_fits(old(self)@, buf@.len()) ==> {
                &&& r == Ok::<usize, Error>(buf@.len() as usize)
                &&& final(self)@ == appended(old(self)@, buf@)
            },
            !write_fits(old(self)@, buf@.len()) ==> {
                &&& r == Err::<usize, Error>(Error::Overflow)
                &&& final(self)@ == old(self)@
            },
    {
        if buf.len() > self.data.len() - self.size {
            return Err(Error::Overflow);
        }
        if buf.len() == 0 {
            assert(self@.content + buf@ =~= self@.content);
            assert(appended(self@, buf@) == self@);
            return Ok(0);
        }
        let ghost before = self@.content;
        let begin = self.calc_index(self.size);
        mut_ring_slice(&mut self.data, begin, buf);
        self.size = self.size + buf.len();
        assert(self@.content =~= before + buf@);
        Ok(buf.len())
    }
}

impl Default for Buffer {
    fn default() -> (r: Buffer)
        ensures
            r.wf(),
            r@.content == Seq::<u8>::empty(),
            r@.scan == 0,
            r@.capacity == BUFFER_SIZE,
    {
        Buffer::new(BUFFER_SIZE)
    }
}

/// The `length` elements of `data` from `begin`, as at most two contiguous runs.
pub fn ring_slice<T>(data: &[T], begin: usize, length: usize) -> (r: (&[T], &[T]))
    requires
        length <= data@.len(),
        begin < data@.len(),
    ensures
        r.0@ + r.1@ == ring_run(data@, begin as int, length as int),
        r.0@.len() == (if begin + length <= data@.len() {
            length as int
        } else {
            data@.len() - begin
        }),
        r.0@ == data@.subrange(begin as int, begin + r.0@.len()),
{
    if length < data.len() - begin {
        let first = slice_subrange(data, begin, begin + length);
        let second = slice_subrange(data, 0, 0);
        assert(first@ + second@ =~= ring_run(data@, begin as int, length as int));
        (first, second)
    } else {
        let end = length - (data.len() - begin);
        let first = slice_subrange(data, begin, data.len());
        let second = slice_subrange(data, 0, end);
        assert(first@ + second@ =~= ring_run(data@, begin as int, length as int));
        (first, second)
    }
}

/// Copies `src` into `data` from slot `begin` on, running around the end.
pub fn mut_ring_slice<T: Copy>(data: &mut Vec<T>, begin: usize, src: &[T])
    requires
        src@.len() <= old(data)@.len(),
        begin < old(data)@.len(),
    ensures
        final(data)@.len() == old(data)@.len(),
        forall|j: int|
            0 <= j < old(data)@.len() ==> #[trigger] final(data)@[j] == (if ring_offset(
                j,
                begin as int,
                old(data)@.len() as int,
            ) < src@.len() {
                src@[ring_offset(j, begin as int, old(data)@.len() as int)]
            } else {
                old(data)@[j]
            }),
{
    let len = data.len();
    let mut i: usize = 0;
    while i < src.len()
        invariant
            0 <= i <= src@.len() <= len,
            begin < len,
            len == old(data)@.len(),
            data@.len() == len,
            forall|j: int|
                0 <= j < len ==> #[trigger] data@[j] == (if ring_offset(j, begin as int, len as int)
                    < i {
                    src@[ring_offset(j, begin as int, len as int)]
                } else {
                    old(data)@[j]
                }),
        decreases src@.len() - i,
    {
        let index = if i < len - begin {
            begin + i
        } else {
            i - (len - begin)
        };
        data.set(index, src[i]);
        i = i + 1;
    }
}

} // verus!
