//! The bytes of a guest framebuffer behind a small write-back cache.

use crate::error::{ErrorView, WieError};
use crate::guest_memory::{
    admits, byte_at, calls_within, failure, holds, is_caused, lemma_calls_within_none,
    lemma_calls_within_push, lemma_calls_within_trans, lemma_consistent_before, result_view, stored,
    within, Bytes, Call, Guest, WIPICContext,
};
use vstd::prelude::*;

verus! {

/// The bytes of a cached block.
pub const CACHE_BYTES: usize = 256;

/// A range of guest memory. At most one aligned block of it is cached; a part
/// of the block may hold bytes that were not stored yet.
pub struct Pixels {
    address: u32,
    size: usize,
    /// Where the cached block starts, if one is cached.
    start: Option<usize>,
    bytes: Vec<u8>,
    dirty_start: usize,
    dirty_end: usize,
    error: Option<WieError>,
}

/// Whether everything in `a` is in `b` too.
pub open spec fn keeps(a: Bytes, b: Bytes) -> bool {
    forall|at: int| #[trigger]
        a.dom().contains(at) ==> b.dom().contains(at) && b[at] == a[at]
}

/// What is known of the `len` bytes from `start` on, by offset.
pub open spec fn window(known: Bytes, start: int, len: nat) -> Bytes {
    Map::new(
        |offset: int| 0 <= offset < len && known.dom().contains(start + offset),
        |offset: int| known[start + offset],
    )
}

/// Whether `output` is what a read gives that broke off: zeros from some byte on
/// and, where the context behaves as a memory does, bytes of `content` before.
pub open spec fn is_cut(content: Bytes, consistent: bool, offset: int, output: Seq<u8>) -> bool {
    exists|read: int| #[trigger] is_cut_at(content, consistent, offset, output, read)
}

/// Whether `output` is what a read gives that broke off after `read` bytes.
pub open spec fn is_cut_at(
    content: Bytes,
    consistent: bool,
    offset: int,
    output: Seq<u8>,
    read: int,
) -> bool {
    &&& 0 <= read < output.len()
    &&& consistent ==> holds(content, offset, output.take(read))
    &&& forall|i: int| read <= i < output.len() ==> #[trigger] output[i] == 0
}

impl Pixels {
    /// The address of the first byte.
    pub closed spec fn address(&self) -> u32 {
        self.address
    }

    /// The number of bytes.
    pub closed spec fn size(&self) -> usize {
        self.size
    }

    /// The first failure of the context, which stops all reading and writing.
    pub closed spec fn error(&self) -> Option<ErrorView> {
        match self.error {
            Some(error) => Some(error@),
            None => None,
        }
    }

    spec fn cached(&self, offset: int) -> bool {
        self.start is Some && within(offset, self.start->0 as int, self.bytes@.len())
    }

    spec fn is_dirty(&self, offset: int) -> bool {
        self.start is Some && self.start->0 + self.dirty_start <= offset < self.start->0
            + self.dirty_end
    }

    spec fn shaped(&self) -> bool {
        &&& self.address + self.size <= 0x1_0000_0000
        &&& self.dirty_start <= self.dirty_end <= self.bytes@.len()
        &&& self.dirty_start == self.dirty_end ==> self.dirty_end == 0
        &&& match self.start {
            None => self.bytes@.len() == 0,
            Some(start) => {
                &&& start % CACHE_BYTES == 0
                &&& start < self.size
                &&& self.bytes@.len() == block_len(self.size as int, start as int)
            },
        }
    }

    spec fn settled(&self, memory: Bytes) -> bool {
        forall|offset: int| #[trigger]
            self.cached(offset) && !self.is_dirty(offset) ==> memory.dom().contains(
                self.address + offset,
            ) && memory[self.address + offset] == self.bytes@[offset - self.start->0]
    }

    /// Whether the cache fits what is known of the guest's memory.
    pub closed spec fn valid<C: WIPICContext>(&self, guest: &Guest<C>) -> bool {
        &&& self.shaped()
        &&& self.error is None && guest.consistent() ==> self.settled(guest.known())
    }

    /// What is known of the bytes, by offset: what the cache holds, and what the
    /// memory holds elsewhere.
    pub closed spec fn content(&self, memory: Bytes) -> Bytes {
        Map::new(
            |offset: int|
                0 <= offset < self.size && (self.cached(offset) || memory.dom().contains(
                    self.address + offset,
                )),
            |offset: int|
                if self.cached(offset) {
                    self.bytes@[offset - self.start->0]
                } else {
                    memory[self.address + offset]
                },
        )
    }

    /// Whether no byte waits to be stored.
    pub closed spec fn clean(&self) -> bool {
        self.dirty_start == self.dirty_end
    }

    /// The `size` bytes from `address` on, with nothing cached.
    pub fn new<C: WIPICContext>(address: u32, size: usize, guest: &Guest<C>) -> (pixels: Pixels)
        requires
            address + size <= 0x1_0000_0000,
        ensures
            pixels.address() == address,
            pixels.size() == size,
            pixels.error() is None,
            pixels.clean(),
            pixels.valid(guest),
            forall|known: Bytes| #[trigger]
                pixels.content(known) == window(known, address as int, size as nat),
    {
        let pixels = Pixels {
            address,
            size,
            start: None,
            bytes: Vec::new(),
            dirty_start: 0,
            dirty_end: 0,
            error: None,
        };
        assert forall|known: Bytes| #[trigger] pixels.content(known) == window(
            known,
            address as int,
            size as nat,
        ) by {
            assert(pixels.content(known) =~= window(known, address as int, size as nat));
        }
        pixels
    }

    /// Stores the bytes of the cached block that were not stored yet.
    fn flush_block<C: WIPICContext>(&mut self, guest: &mut Guest<C>) -> (done: Result<(), WieError>)
        requires
            old(self).valid(old(guest)),
        ensures
            final(self).valid(final(guest)),
            final(self).address == old(self).address,
            final(self).size == old(self).size,
            final(self).start == old(self).start,
            final(self).bytes == old(self).bytes,
            final(self).error == old(self).error,
            final(guest).consistent() == old(guest).consistent(),
            done is Ok ==> final(self).clean(),
            old(self).clean() ==> final(guest).calls() == old(guest).calls() && done is Ok,
            !old(self).clean() ==> final(guest).calls() == old(guest).calls().push(
                Call::Write {
                    address: (old(self).address + old(self).start->0 + old(self).dirty_start) as u32,
                    data: old(self).bytes@.subrange(
                        old(self).dirty_start as int,
                        old(self).dirty_end as int,
                    ),
                    done: result_view(done),
                },
            ),
            final(guest).initial() == old(guest).initial(),
            calls_within(
                old(guest).calls(),
                final(guest).calls(),
                old(self).address as int,
                old(self).size as nat,
            ),
            final(self).content(final(guest).known()) == old(self).content(old(guest).known()),
    {
        proof {
            lemma_calls_within_none(guest.calls(), self.address as int, self.size as nat);
        }
        if self.dirty_start == self.dirty_end {
            return Ok(());
        }
        let start: usize = match self.start {
            Some(start) => start,
            None => {
                return Ok(());
            },
        };
        let mut data: Vec<u8> = Vec::new();
        let mut i: usize = self.dirty_start;
        while i < self.dirty_end
            invariant
                self.dirty_start <= i <= self.dirty_end <= self.bytes.len(),
                data@ == self.bytes@.subrange(self.dirty_start as int, i as int),
            decreases self.dirty_end - i,
        {
            data.push(self.bytes[i]);
            assert(data@ =~= self.bytes@.subrange(self.dirty_start as int, i + 1));
            i += 1;
        }
        let at: u32 = self.address + (start + self.dirty_start) as u32;
        let ghost calls = guest.calls();
        let ghost memory = guest.known();
        match guest.write_bytes(at, data.as_slice()) {
            Ok(()) => {
                let ghost content = self.content(memory);
                let ghost was = *self;
                self.dirty_start = 0;
                self.dirty_end = 0;
                proof {
                    if self.error is None && guest.consistent() {
                        assert forall|offset: int| #[trigger]
                            self.cached(offset) && !self.is_dirty(
                                offset,
                            ) implies guest.known().dom().contains(self.address + offset)
                            && guest.known()[self.address + offset] == self.bytes@[offset
                            - self.start->0] by {
                            assert(was.cached(offset));
                            if was.is_dirty(offset) {
                                assert(within(self.address + offset, at as int, data@.len()));
                            }
                        }
                    }
                    lemma_calls_within_push(
                        calls,
                        calls,
                        guest.calls().last(),
                        self.address as int,
                        self.size as nat,
                    );
                    assert(self.content(guest.known()) =~= content);
                }
                Ok(())
            },
            Err(error) => {
                proof {
                    if self.error is None && guest.consistent() {
                        assert forall|offset: int| #[trigger]
                            self.cached(offset) && !self.is_dirty(
                                offset,
                            ) implies guest.known().dom().contains(self.address + offset)
                            && guest.known()[self.address + offset] == self.bytes@[offset
                            - self.start->0] by {
                            assert(!within(self.address + offset, at as int, data@.len()));
                        }
                    }
                    assert forall|offset: int| within(
                        self.address + offset,
                        at as int,
                        data@.len(),
                    ) implies self.cached(offset) by {}
                    assert(self.content(guest.known()) =~= self.content(memory));
                    lemma_calls_within_push(
                        calls,
                        calls,
                        guest.calls().last(),
                        self.address as int,
                        self.size as nat,
                    );
                }
                Err(error)
            },
        }
    }

    /// Caches the block that `offset` lies in, and says where in it.
    fn load<C: WIPICContext>(&mut self, guest: &mut Guest<C>, offset: usize) -> (index: Result<
        usize,
        WieError,
    >)
        requires
            old(self).valid(old(guest)),
            offset < old(self).size,
        ensures
            final(self).valid(final(guest)),
            final(self).address == old(self).address,
            final(self).size == old(self).size,
            final(self).error == old(self).error,
            final(guest).initial() == old(guest).initial(),
            calls_within(
                old(guest).calls(),
                final(guest).calls(),
                old(self).address as int,
                old(self).size as nat,
            ),
            index is Err ==> final(guest).calls().len() > old(guest).calls().len() && failure(
                final(guest).calls().last(),
            ) == Some(index->Err_0@),
            index is Err ==> final(self).content(final(guest).known()) == old(self).content(
                old(guest).known(),
            ),
            index is Ok ==> {
                &&& final(self).cached(offset as int)
                &&& final(self).start == Some((offset - offset % CACHE_BYTES) as usize)
                &&& index->Ok_0 == offset % CACHE_BYTES
                &&& old(self).error is None && final(guest).consistent() ==> keeps(
                    old(self).content(old(guest).known()),
                    final(self).content(final(guest).known()),
                )
            },
    {
        let start: usize = offset / CACHE_BYTES * CACHE_BYTES;
        let ghost before = self.content(guest.known());
        let ghost calls = guest.calls();
        proof {
            lemma_calls_within_none(calls, self.address as int, self.size as nat);
        }
        let loaded: bool = match self.start {
            Some(current) => current == start,
            None => false,
        };
        if !loaded {
            match self.flush_block(guest) {
                Ok(()) => {},
                Err(error) => return Err(error),
            }
            let len: usize = if self.size - start < CACHE_BYTES {
                self.size - start
            } else {
                CACHE_BYTES
            };
            let ghost flushed = guest.calls();
            let ghost memory = guest.known();
            let address: u32 = self.address + start as u32;
            let bytes = guest.read_bytes(address, len);
            proof {
                lemma_calls_within_none(flushed, self.address as int, self.size as nat);
                lemma_calls_within_push(
                    flushed,
                    flushed,
                    guest.calls().last(),
                    self.address as int,
                    self.size as nat,
                );
                lemma_calls_within_trans(
                    calls,
                    flushed,
                    guest.calls(),
                    self.address as int,
                    self.size as nat,
                );
            }
            match bytes {
                Ok(bytes) => {
                    let ghost cached = *self;
                    self.bytes = bytes;
                    self.start = Some(start);
                    proof {
                        let after = self.content(guest.known());
                        assert forall|offset: int| #[trigger]
                            self.cached(offset) && !self.is_dirty(
                                offset,
                            ) implies guest.known().dom().contains(self.address + offset)
                            && guest.known()[self.address + offset] == self.bytes@[offset
                            - start] by {
                            assert(within(self.address + offset, address as int, len as nat));
                        }
                        if cached.error is None && guest.consistent() {
                            assert forall|at: int| #[trigger] before.dom().contains(at) implies after.dom().contains(
                            at) && after[at] == before[at] by {
                                assert(memory.dom().contains(self.address + at)) by {
                                    if cached.cached(at) {
                                        assert(!cached.is_dirty(at));
                                    }
                                }
                                if self.cached(at) {
                                    assert(admits(memory, address as int, self.bytes@));
                                    assert(self.bytes@[at - start] == memory[self.address + at]);
                                }
                            }
                        }
                    }
                },
                Err(error) => return Err(error),
            }
        }
        Ok(offset - start)
    }

    /// The `len` bytes from `offset` on. Once the context has failed, the bytes
    /// that were not read are zero.
    pub fn read<C: WIPICContext>(&mut self, guest: &mut Guest<C>, offset: usize, len: usize) -> (output:
        Vec<u8>)
        requires
            old(self).valid(old(guest)),
            offset + len <= old(self).size(),
        ensures
            final(self).valid(final(guest)),
            final(self).address() == old(self).address(),
            final(self).size() == old(self).size(),
            final(guest).initial() == old(guest).initial(),
            calls_within(
                old(guest).calls(),
                final(guest).calls(),
                old(self).address() as int,
                old(self).size() as nat,
            ),
            is_caused(
                old(self).error(),
                final(self).error(),
                old(guest).calls(),
                final(guest).calls(),
            ),
            output@.len() == len,
            old(self).error() is Some ==> {
                &&& *final(self) == *old(self)
                &&& final(guest).calls() == old(guest).calls()
                &&& output@ == Seq::new(len as nat, |i: int| 0u8)
            },
            old(self).error() is None && final(self).error() is None && final(guest).consistent() ==> {
                &&& keeps(
                    old(self).content(old(guest).known()),
                    final(self).content(final(guest).known()),
                )
                &&& holds(final(self).content(final(guest).known()), offset as int, output@)
            },
            old(self).error() is None && final(self).error() is Some ==> {
                &&& final(guest).consistent() ==> keeps(
                    old(self).content(old(guest).known()),
                    final(self).content(final(guest).known()),
                )
                &&& is_cut(
                    final(self).content(final(guest).known()),
                    final(guest).consistent(),
                    offset as int,
                    output@,
                )
            },
    {
        let mut output: Vec<u8> = Vec::new();
        let ghost calls = guest.calls();
        let ghost content = self.content(guest.known());
        proof {
            lemma_calls_within_none(calls, self.address as int, self.size as nat);
        }
        if self.error.is_some() {
            output.resize(len, 0);
            assert(output@ =~= Seq::new(len as nat, |i: int| 0u8));
            return output;
        }
        while output.len() < len
            invariant
                output.len() <= len,
                offset + len <= self.size,
                self.error is None,
                old(self).error is None,
                self.valid(guest),
                self.address == old(self).address,
                self.size == old(self).size,
                calls == old(guest).calls(),
                guest.initial() == old(guest).initial(),
                content == old(self).content(old(guest).known()),
                calls_within(calls, guest.calls(), self.address as int, self.size as nat),
                guest.consistent() ==> keeps(content, self.content(guest.known())) && holds(
                    self.content(guest.known()),
                    offset as int,
                    output@,
                ),
            decreases len - output.len(),
        {
            let ghost before = self.content(guest.known());
            let ghost calls_before = guest.calls();
            let at: usize = offset + output.len();
            let loaded = self.load(guest, at);
            proof {
                lemma_calls_within_trans(
                    calls,
                    calls_before,
                    guest.calls(),
                    self.address as int,
                    self.size as nat,
                );
                if guest.consistent() {
                    lemma_consistent_before(guest.initial(), calls_before, guest.calls());
                }
            }
            let index: usize = match loaded {
                Ok(index) => index,
                Err(error) => {
                    self.error = Some(error);
                    let ghost read = output@;
                    output.resize(len, 0);
                    proof {
                        assert(output@.take(read.len() as int) =~= read);
                        assert(is_cut_at(
                            self.content(guest.known()),
                            guest.consistent(),
                            offset as int,
                            output@,
                            read.len() as int,
                        ));
                    }
                    return output;
                },
            };
            let ghost after = self.content(guest.known());
            let count: usize = if self.bytes.len() - index < len - output.len() {
                self.bytes.len() - index
            } else {
                len - output.len()
            };
            let ghost first = output@;
            let mut i: usize = 0;
            while i < count
                invariant
                    i <= count,
                    index + count <= self.bytes.len(),
                    output@ == first + self.bytes@.subrange(index as int, index + i),
                decreases count - i,
            {
                output.push(self.bytes[index + i]);
                assert(output@ =~= first + self.bytes@.subrange(index as int, index + i + 1));
                i += 1;
            }
            proof {
                if guest.consistent() {
                    assert forall|i: int|
                        #![trigger output@[i]]
                        0 <= i < output@.len() implies byte_at(after, offset + i) == Some(
                        output@[i],
                    ) by {
                        if i < first.len() {
                            assert(first[i] == output@[i]);
                            assert(before.dom().contains(offset + i));
                        } else {
                            assert(self.cached(offset + i));
                        }
                    }
                    assert forall|k: int| #[trigger] content.dom().contains(k) implies after.dom().contains(
                    k) && after[k] == content[k] by {
                        assert(before.dom().contains(k));
                    }
                }
            }
        }
        output
    }

    /// Puts `input` from `offset` on. Once the context has failed, nothing is
    /// put anywhere.
    pub fn write<C: WIPICContext>(&mut self, guest: &mut Guest<C>, offset: usize, input: &[u8])
        requires
            old(self).valid(old(guest)),
            offset + input@.len() <= old(self).size(),
        ensures
            final(self).valid(final(guest)),
            final(self).address() == old(self).address(),
            final(self).size() == old(self).size(),
            final(guest).initial() == old(guest).initial(),
            calls_within(
                old(guest).calls(),
                final(guest).calls(),
                old(self).address() as int,
                old(self).size() as nat,
            ),
            is_caused(
                old(self).error(),
                final(self).error(),
                old(guest).calls(),
                final(guest).calls(),
            ),
            old(self).error() is Some ==> {
                &&& *final(self) == *old(self)
                &&& final(guest).calls() == old(guest).calls()
            },
            final(self).error() is None && final(guest).consistent() ==> keeps(
                stored(old(self).content(old(guest).known()), offset as int, input@),
                final(self).content(final(guest).known()),
            ),
    {
        let ghost calls = guest.calls();
        let ghost content = self.content(guest.known());
        proof {
            lemma_calls_within_none(calls, self.address as int, self.size as nat);
        }
        if self.error.is_some() {
            return;
        }
        let mut put: usize = 0;
        while put < input.len()
            invariant
                put <= input@.len(),
                offset + input@.len() <= self.size,
                self.error is None,
                old(self).error is None,
                self.valid(guest),
                self.address == old(self).address,
                self.size == old(self).size,
                calls == old(guest).calls(),
                guest.initial() == old(guest).initial(),
                content == old(self).content(old(guest).known()),
                calls_within(calls, guest.calls(), self.address as int, self.size as nat),
                guest.consistent() ==> keeps(
                    stored(content, offset as int, input@.take(put as int)),
                    self.content(guest.known()),
                ),
            decreases input@.len() - put,
        {
            let ghost before = self.content(guest.known());
            let ghost calls_before = guest.calls();
            let loaded = self.load(guest, offset + put);
            proof {
                lemma_calls_within_trans(
                    calls,
                    calls_before,
                    guest.calls(),
                    self.address as int,
                    self.size as nat,
                );
                if guest.consistent() {
                    lemma_consistent_before(guest.initial(), calls_before, guest.calls());
                }
            }
            let index: usize = match loaded {
                Ok(index) => index,
                Err(error) => {
                    self.error = Some(error);
                    return;
                },
            };
            let ghost after = self.content(guest.known());
            let ghost cached = *self;
            let count: usize = if self.bytes.len() - index < input.len() - put {
                self.bytes.len() - index
            } else {
                input.len() - put
            };
            let mut i: usize = 0;
            while i < count
                invariant
                    i <= count,
                    put + count <= input@.len() <= usize::MAX,
                    index + count <= self.bytes.len(),
                    self.bytes.len() == cached.bytes.len(),
                    self.address == cached.address,
                    self.size == cached.size,
                    self.start == cached.start,
                    self.error == cached.error,
                    self.dirty_start == cached.dirty_start,
                    self.dirty_end == cached.dirty_end,
                    forall|k: int|
                        0 <= k < self.bytes.len() ==> #[trigger] self.bytes@[k] == (if index <= k
                            < index + i {
                            input@[put + k - index]
                        } else {
                            cached.bytes@[k]
                        }),
                decreases count - i,
            {
                self.bytes.set(index + i, input[put + i]);
                i += 1;
            }
            if self.dirty_start == self.dirty_end {
                self.dirty_start = index;
                self.dirty_end = index + count;
            } else {
                if index < self.dirty_start {
                    self.dirty_start = index;
                }
                if index + count > self.dirty_end {
                    self.dirty_end = index + count;
                }
            }
            proof {
                if guest.consistent() {
                    assert forall|offset: int| #[trigger]
                        self.cached(offset) && !self.is_dirty(
                            offset,
                        ) implies guest.known().dom().contains(self.address + offset)
                        && guest.known()[self.address + offset] == self.bytes@[offset
                        - self.start->0] by {
                        assert(cached.cached(offset) && !cached.is_dirty(offset));
                    }
                    let now = self.content(guest.known());
                    let wanted = stored(content, offset as int, input@.take(put + count));
                    assert forall|k: int| #[trigger] wanted.dom().contains(k) implies now.dom().contains(
                    k) && now[k] == wanted[k] by {
                        if within(k, offset + put, count as nat) {
                            assert(self.cached(k));
                        } else {
                            let so_far = stored(content, offset as int, input@.take(put as int));
                            assert(so_far.dom().contains(k) && so_far[k] == wanted[k]);
                            assert(before.dom().contains(k));
                            assert(after.dom().contains(k) && after[k] == wanted[k]);
                            if self.cached(k) {
                                assert(cached.cached(k));
                                assert(self.bytes@[k - self.start->0] == cached.bytes@[k
                                    - self.start->0]);
                            }
                        }
                    }
                }
            }
            put += count;
        }
        assert(input@.take(input@.len() as int) =~= input@);
        assert(stored(content, offset as int, input@.take(put as int)) =~= stored(
            content,
            offset as int,
            input@,
        ));
    }

    /// Stores everything that was not stored yet, or reports the first failure.
    pub fn finish<C: WIPICContext>(&mut self, guest: &mut Guest<C>) -> (done: Result<(), WieError>)
        requires
            old(self).valid(old(guest)),
        ensures
            final(self).address() == old(self).address(),
            final(self).size() == old(self).size(),
            final(guest).initial() == old(guest).initial(),
            calls_within(
                old(guest).calls(),
                final(guest).calls(),
                old(self).address() as int,
                old(self).size() as nat,
            ),
            old(self).error() is Some ==> {
                &&& done is Err
                &&& done->Err_0@ == old(self).error()->0
                &&& final(guest).calls() == old(guest).calls()
            },
            old(self).error() is None && old(self).clean() ==> done is Ok && final(guest).calls()
                == old(guest).calls(),
            old(self).error() is None && !old(self).clean() ==> {
                &&& final(guest).calls().len() == old(guest).calls().len() + 1
                &&& final(guest).calls().last() matches Call::Write { done: answer, .. } && answer
                    == result_view(done)
            },
            done is Ok && final(guest).consistent() ==> forall|offset: int| #[trigger]
                old(self).content(old(guest).known()).dom().contains(offset) ==> {
                    &&& final(guest).known().dom().contains(old(self).address() + offset)
                    &&& final(guest).known()[old(self).address() + offset] == old(self).content(
                        old(guest).known(),
                    )[offset]
                },
    {
        proof {
            lemma_calls_within_none(guest.calls(), self.address as int, self.size as nat);
        }
        if let Some(error) = self.error.take() {
            return Err(error);
        }
        let ghost content = self.content(guest.known());
        let done = self.flush_block(guest);
        proof {
            if done is Ok && guest.consistent() {
                assert forall|offset: int| #[trigger] content.dom().contains(offset) implies {
                    &&& guest.known().dom().contains(self.address + offset)
                    &&& guest.known()[self.address + offset] == content[offset]
                } by {
                    assert(self.content(guest.known()).dom().contains(offset));
                    if self.cached(offset) {
                        assert(!self.is_dirty(offset));
                    }
                }
            }
        }
        done
    }
}

/// The length of the block that starts at `start`.
pub open spec fn block_len(size: int, start: int) -> int {
    if size - start < CACHE_BYTES {
        size - start
    } else {
        CACHE_BYTES as int
    }
}

/// One write to the bytes of a framebuffer.
pub struct Placed {
    pub offset: int,
    pub data: Seq<u8>,
}

/// `content` after `writes`, in order.
pub open spec fn overwritten(content: Bytes, writes: Seq<Placed>) -> Bytes
    decreases writes.len(),
{
    if writes.len() == 0 {
        content
    } else {
        let last = writes.last();
        stored(overwritten(content, writes.drop_last()), last.offset, last.data)
    }
}

/// Whether `contents` is what a cache shows before, between and after `writes`.
pub open spec fn is_history(contents: Seq<Bytes>, writes: Seq<Placed>) -> bool {
    &&& contents.len() == writes.len() + 1
    &&& forall|i: int|
        0 <= i < writes.len() ==> keeps(
            stored(#[trigger] contents[i], writes[i].offset, writes[i].data),
            contents[i + 1],
        )
}

proof fn lemma_history(contents: Seq<Bytes>, writes: Seq<Placed>)
    requires
        is_history(contents, writes),
    ensures
        keeps(overwritten(contents[0], writes), contents.last()),
    decreases writes.len(),
{
    if writes.len() > 0 {
        let n = writes.len() - 1;
        let front = contents.drop_last();
        let earlier = writes.drop_last();
        assert forall|i: int| 0 <= i < earlier.len() implies keeps(
            stored(#[trigger] front[i], earlier[i].offset, earlier[i].data),
            front[i + 1],
        ) by {
            assert(front[i] == contents[i] && front[i + 1] == contents[i + 1]);
            assert(earlier[i] == writes[i]);
        }
        lemma_history(front, earlier);
        let before = overwritten(contents[0], earlier);
        let after = overwritten(contents[0], writes);
        let last = writes[n];
        let mid = stored(contents[n], last.offset, last.data);
        assert forall|at: int| #[trigger] after.dom().contains(at) implies contents.last().dom().contains(
        at) && contents.last()[at] == after[at] by {
            assert(before.dom().contains(at) ==> contents[n].dom().contains(at));
            assert(mid.dom().contains(at) && mid[at] == after[at]);
        }
    }
}

/// Through a fresh cache a read shows the memory with all writes since applied in
/// order, whatever blocks they cross.
pub proof fn law_reads_show_memory_and_writes(
    memory: Bytes,
    address: int,
    size: nat,
    writes: Seq<Placed>,
    contents: Seq<Bytes>,
    shown: Bytes,
    offset: int,
    output: Seq<u8>,
)
    requires
        is_history(contents, writes),
        contents[0] == window(memory, address, size),
        keeps(contents.last(), shown),
        holds(shown, offset, output),
        0 <= offset,
        offset + output.len() <= size,
        forall|at: int|
            address <= at < address + size ==> #[trigger] memory.dom().contains(at),
    ensures
        forall|i: int|
            #![trigger output[i]]
            0 <= i < output.len() ==> byte_at(
                overwritten(window(memory, address, size), writes),
                offset + i,
            ) == Some(output[i]),
{
    lemma_history(contents, writes);
    let wanted = overwritten(contents[0], writes);
    assert forall|i: int|
        #![trigger output[i]]
        0 <= i < output.len() implies byte_at(wanted, offset + i) == Some(output[i]) by {
        assert(memory.dom().contains(address + offset + i));
        assert(contents[0].dom().contains(offset + i));
        lemma_overwritten_keeps_domain(contents[0], writes, offset + i);
        assert(contents.last().dom().contains(offset + i));
        assert(byte_at(shown, offset + i) == Some(output[i]));
    }
}

proof fn lemma_overwritten_keeps_domain(content: Bytes, writes: Seq<Placed>, at: int)
    requires
        content.dom().contains(at),
    ensures
        overwritten(content, writes).dom().contains(at),
    decreases writes.len(),
{
    if writes.len() > 0 {
        lemma_overwritten_keeps_domain(content, writes.drop_last(), at);
    }
}

/// Bytes that were put are read again, whatever blocks they lie in, as long as the context
/// neither failed nor forgot.
pub proof fn law_written_bytes_are_read<C: WIPICContext>(
    pixels: &mut Pixels,
    guest: &mut Guest<C>,
    offset: usize,
    input: &[u8],
    next: &mut Pixels,
    next_guest: &mut Guest<C>,
    output: Vec<u8>,
)
    requires
        old(pixels).valid(old(guest)),
        offset + input@.len() <= old(pixels).size(),
        input@.len() <= usize::MAX,
        call_ensures(Pixels::write::<C>, (pixels, guest, offset, input), ()),
        *old(next) == *final(pixels),
        *old(next_guest) == *final(guest),
        call_ensures(
            Pixels::read::<C>,
            (next, next_guest, offset, input@.len() as usize),
            output,
        ),
        final(next).error() is None,
        final(next_guest).consistent(),
    ensures
        output@ == input@,
{
    lemma_consistent_before(
        final(next_guest).initial(),
        final(guest).calls(),
        final(next_guest).calls(),
    );
    let put = stored(old(pixels).content(old(guest).known()), offset as int, input@);
    let mid = final(pixels).content(final(guest).known());
    let end = final(next).content(final(next_guest).known());
    assert forall|i: int| 0 <= i < input@.len() implies output@[i] == input@[i] by {
        assert(put.dom().contains(offset + i));
        assert(mid.dom().contains(offset + i));
        assert(byte_at(end, offset + i) == Some(output@[i]));
    }
    assert(output@ =~= input@);
}

/// A failure lasts: from the first one on every read gives zeros, nothing is put anywhere,
/// no call is made, and finishing reports that failure.
pub proof fn law_failures_last<C: WIPICContext>(
    pixels: &mut Pixels,
    guest: &mut Guest<C>,
    offset: usize,
    len: usize,
    output: Vec<u8>,
    next: &mut Pixels,
    next_guest: &mut Guest<C>,
    input: &[u8],
    last: &mut Pixels,
    last_guest: &mut Guest<C>,
    done: Result<(), WieError>,
)
    requires
        old(pixels).valid(old(guest)),
        old(pixels).error() is Some,
        offset + len <= old(pixels).size(),
        offset + input@.len() <= old(pixels).size(),
        call_ensures(Pixels::read::<C>, (pixels, guest, offset, len), output),
        *old(next) == *final(pixels),
        *old(next_guest) == *final(guest),
        call_ensures(Pixels::write::<C>, (next, next_guest, offset, input), ()),
        *old(last) == *final(next),
        *old(last_guest) == *final(next_guest),
        call_ensures(Pixels::finish::<C>, (last, last_guest), done),
    ensures
        output@.len() == len,
        forall|i: int| 0 <= i < len ==> #[trigger] output@[i] == 0,
        final(last_guest).calls() == old(guest).calls(),
        done matches Err(error) && Some(error@) == old(pixels).error(),
{
}

/// A read that breaks off gives zeros from some byte on, at least one, and the bytes before
/// are those that are known. The failure is that of the last call.
pub proof fn law_broken_reads_end_in_zeros<C: WIPICContext>(
    pixels: &mut Pixels,
    guest: &mut Guest<C>,
    offset: usize,
    len: usize,
    output: Vec<u8>,
)
    requires
        old(pixels).valid(old(guest)),
        offset + len <= old(pixels).size(),
        call_ensures(Pixels::read::<C>, (pixels, guest, offset, len), output),
        old(pixels).error() is None,
        final(pixels).error() is Some,
    ensures
        output@.len() == len,
        output@[len - 1] == 0,
        exists|read: int|
            #![trigger output@.take(read)]
            0 <= read < len && (forall|i: int| read <= i < len ==> #[trigger] output@[i] == 0) && (
            final(guest).consistent() ==> forall|i: int|
                0 <= i < read ==> byte_at(
                    final(pixels).content(final(guest).known()),
                    offset + i,
                ) == Some(#[trigger] output@[i])),
        final(guest).calls().len() > old(guest).calls().len(),
        failure(final(guest).calls().last()) == final(pixels).error(),
{
    let content = final(pixels).content(final(guest).known());
    let read = choose|read: int| #[trigger]
        is_cut_at(content, final(guest).consistent(), offset as int, output@, read);
    if final(guest).consistent() {
        assert forall|i: int| 0 <= i < read implies byte_at(content, offset + i) == Some(
            #[trigger] output@[i],
        ) by {
            assert(output@.take(read)[i] == output@[i]);
        }
    }
    assert(output@.take(read).len() == read);
}

/// A read that does not break off gives the bytes that are known, and reading changes none of
/// them.
pub proof fn law_reads_give_known_bytes<C: WIPICContext>(
    pixels: &mut Pixels,
    guest: &mut Guest<C>,
    offset: usize,
    len: usize,
    output: Vec<u8>,
    i: int,
)
    requires
        old(pixels).valid(old(guest)),
        offset + len <= old(pixels).size(),
        call_ensures(Pixels::read::<C>, (pixels, guest, offset, len), output),
        final(pixels).error() is None,
        final(guest).consistent(),
        0 <= i < len,
    ensures
        output@.len() == len,
        byte_at(old(pixels).content(old(guest).known()), offset + i) matches Some(byte) ==> output@[i]
            == byte,
        byte_at(final(pixels).content(final(guest).known()), offset + i) == Some(output@[i]),
{
    let before = old(pixels).content(old(guest).known());
    if before.dom().contains(offset + i) {
        assert(final(pixels).content(final(guest).known()).dom().contains(offset + i));
    }
    assert(byte_at(final(pixels).content(final(guest).known()), offset + i) == Some(output@[i]));
}

/// Finishing stores what waits in one write at most and gives its answer; once it succeeded
/// the memory holds everything that the cache showed.
pub proof fn law_finishing_stores_everything<C: WIPICContext>(
    pixels: &mut Pixels,
    guest: &mut Guest<C>,
    done: Result<(), WieError>,
    offset: int,
)
    requires
        old(pixels).valid(old(guest)),
        old(pixels).error() is None,
        call_ensures(Pixels::finish::<C>, (pixels, guest), done),
    ensures
        final(guest).calls().len() <= old(guest).calls().len() + 1,
        final(guest).calls().len() == old(guest).calls().len() ==> done is Ok,
        final(guest).calls().len() > old(guest).calls().len() ==> (final(guest).calls().last()
            matches Call::Write { done: answer, .. } && (answer is Ok == done is Ok) && (done is Err
            ==> answer == Err::<(), ErrorView>(done->Err_0@))),
        done is Ok && final(guest).consistent() ==> (byte_at(
            old(pixels).content(old(guest).known()),
            offset,
        ) matches Some(byte) ==> byte_at(final(guest).known(), old(pixels).address() + offset)
            == Some(byte)),
{
    if !old(pixels).clean() {
        assert(final(guest).calls().len() == old(guest).calls().len() + 1);
    }
}

} // verus!
