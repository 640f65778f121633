//! The memory of a guest program, reached through a context that the runtime
//! supplies.
//!
//! Nothing is taken for granted of a context's answers. A context has a record of
//! its calls and their answers, and what the calls tell of the memory follows from
//! that record.

use crate::error::{ErrorView, WieError};
use vstd::prelude::*;

verus! {

/// A handle to guest memory, which the context turns into an address.
#[derive(Clone, Copy, Debug, PartialEq, Eq, Structural)]
pub struct WIPICIndirectPtr(pub u32);

/// What a runtime offers to the graphics interface.
pub trait WIPICContext {
    /// The calls of the context, in order, with their answers. Nothing is known of
    /// them of a context that does not define them.
    closed spec fn record(&self) -> Seq<Call> {
        arbitrary()
    }

    /// Allocates guest memory.
    fn allocate(&mut self, size: u32) -> (buffer: Result<WIPICIndirectPtr, WieError>)
        ensures
            final(self).record() == old(self).record().push(
                Call::Allocate { size, buffer: result_view(buffer) },
            ),
    ;

    /// The address of allocated memory.
    fn data_ptr(&mut self, buffer: WIPICIndirectPtr) -> (address: Result<u32, WieError>)
        ensures
            final(self).record() == old(self).record().push(
                Call::Locate { pointer: buffer, located: result_view(address) },
            ),
    ;

    /// The `len` bytes from `address` on, or as many of them as there are.
    fn read_bytes(&mut self, address: u32, len: usize) -> (bytes: Result<Vec<u8>, WieError>)
        ensures
            final(self).record() == old(self).record().push(
                Call::Read { address, len, bytes: bytes_view(bytes) },
            ),
    ;

    /// Stores `data` from `address` on.
    fn write_bytes(&mut self, address: u32, data: &[u8]) -> (done: Result<(), WieError>)
        ensures
            final(self).record() == old(self).record().push(
                Call::Write { address, data: data@, done: result_view(done) },
            ),
    ;
}

/// The meaning of a result.
pub open spec fn result_view<T>(result: Result<T, WieError>) -> Result<T, ErrorView> {
    match result {
        Ok(value) => Ok(value),
        Err(error) => Err(error@),
    }
}

/// A call of a context, with its answer.
pub enum Call {
    Allocate { size: u32, buffer: Result<WIPICIndirectPtr, ErrorView> },
    Locate { pointer: WIPICIndirectPtr, located: Result<u32, ErrorView> },
    Read { address: u32, len: usize, bytes: Result<Seq<u8>, ErrorView> },
    Write { address: u32, data: Seq<u8>, done: Result<(), ErrorView> },
}

/// What is known of guest memory: the bytes at some addresses.
pub type Bytes = Map<int, u8>;

/// Whether `at` is one of the `len` addresses from `start` on.
pub open spec fn within(at: int, start: int, len: nat) -> bool {
    start <= at < start + len
}

/// `known` with `bytes` from `address` on.
pub open spec fn stored(known: Bytes, address: int, bytes: Seq<u8>) -> Bytes {
    Map::new(
        |at: int| within(at, address, bytes.len()) || known.dom().contains(at),
        |at: int|
            if within(at, address, bytes.len()) {
                bytes[at - address]
            } else {
                known[at]
            },
    )
}

/// `known` without the `len` addresses from `address` on.
pub open spec fn forgotten(known: Bytes, address: int, len: nat) -> Bytes {
    Map::new(
        |at: int| !within(at, address, len) && known.dom().contains(at),
        |at: int| known[at],
    )
}

/// What is known of the byte at an address.
pub open spec fn byte_at(known: Bytes, at: int) -> Option<u8> {
    if known.dom().contains(at) {
        Some(known[at])
    } else {
        None
    }
}

/// Whether `bytes` is known to stand from `address` on.
pub open spec fn holds(known: Bytes, address: int, bytes: Seq<u8>) -> bool {
    forall|i: int|
        #![trigger bytes[i]]
        0 <= i < bytes.len() ==> byte_at(known, address + i) == Some(bytes[i])
}

/// Whether nothing that is known contradicts `bytes` from `address` on.
pub open spec fn admits(known: Bytes, address: int, bytes: Seq<u8>) -> bool {
    forall|i: int|
        #![trigger bytes[i]]
        0 <= i < bytes.len() && known.dom().contains(address + i) ==> known[address + i] == bytes[i]
}

/// What is known after one more call. A complete read tells what stands there,
/// a write puts it there, and a failed write leaves it open.
pub open spec fn known_after(known: Bytes, call: Call) -> Bytes {
    match call {
        Call::Read { address, len, bytes: Ok(bytes) } => if bytes.len() == len {
            stored(known, address as int, bytes)
        } else {
            known
        },
        Call::Write { address, data, done: Ok(()) } => stored(known, address as int, data),
        Call::Write { address, data, done: Err(_) } => forgotten(
            known,
            address as int,
            data.len(),
        ),
        _ => known,
    }
}

/// Whether one more call agrees with what is known: a complete read finds what
/// was read or written there before.
pub open spec fn call_agrees(known: Bytes, call: Call) -> bool {
    match call {
        Call::Read { address, len, bytes: Ok(bytes) } => bytes.len() == len ==> admits(
            known,
            address as int,
            bytes,
        ),
        _ => true,
    }
}

/// What the calls of a context tell of the memory, where `initial` was known of
/// it before.
pub open spec fn known(initial: Bytes, calls: Seq<Call>) -> Bytes
    decreases calls.len(),
{
    if calls.len() == 0 {
        initial
    } else {
        known_after(known(initial, calls.drop_last()), calls.last())
    }
}

/// Whether the context behaves as a memory does: every complete read finds what
/// was known, read or written there before.
pub open spec fn consistent(initial: Bytes, calls: Seq<Call>) -> bool
    decreases calls.len(),
{
    calls.len() == 0 || consistent(initial, calls.drop_last()) && call_agrees(
        known(initial, calls.drop_last()),
        calls.last(),
    )
}

/// Whether a call stays within the `len` addresses from `start` on and changes
/// nothing else.
pub open spec fn call_within(call: Call, start: int, len: nat) -> bool {
    match call {
        Call::Read { address, len: count, .. } => start <= address && address + count <= start + len,
        Call::Write { address, data, .. } => start <= address && address + data.len() <= start
            + len,
        _ => false,
    }
}

/// Whether `after` is `before` and then calls within the `len` addresses from
/// `start` on.
pub open spec fn calls_within(before: Seq<Call>, after: Seq<Call>, start: int, len: nat) -> bool {
    &&& before.len() <= after.len()
    &&& after.take(before.len() as int) == before
    &&& forall|i: int|
        before.len() <= i < after.len() ==> call_within(#[trigger] after[i], start, len)
}

/// Calls that stay within some addresses leave what is known elsewhere.
pub proof fn law_calls_within_leave_the_rest(
    initial: Bytes,
    before: Seq<Call>,
    after: Seq<Call>,
    start: int,
    len: nat,
    at: int,
)
    requires
        calls_within(before, after, start, len),
        !within(at, start, len),
    ensures
        byte_at(known(initial, after), at) == byte_at(known(initial, before), at),
    decreases after.len() - before.len(),
{
    if after.len() == before.len() {
        assert(after.take(before.len() as int) =~= after);
    } else {
        let front = after.drop_last();
        assert(front.take(before.len() as int) =~= after.take(before.len() as int));
        assert forall|i: int| before.len() <= i < front.len() implies call_within(
            #[trigger] front[i],
            start,
            len,
        ) by {
            assert(front[i] == after[i]);
        }
        law_calls_within_leave_the_rest(initial, before, front, start, len, at);
        assert(call_within(after[after.len() - 1], start, len));
    }
}

/// The context was consistent before if it is after more calls.
pub proof fn lemma_consistent_before(initial: Bytes, before: Seq<Call>, after: Seq<Call>)
    requires
        before.len() <= after.len(),
        after.take(before.len() as int) == before,
        consistent(initial, after),
    ensures
        consistent(initial, before),
    decreases after.len() - before.len(),
{
    if after.len() == before.len() {
        assert(after.take(before.len() as int) =~= after);
    } else {
        let front = after.drop_last();
        assert(front.take(before.len() as int) =~= after.take(before.len() as int));
        lemma_consistent_before(initial, before, front);
    }
}

/// One more call within the addresses.
pub proof fn lemma_calls_within_push(
    before: Seq<Call>,
    after: Seq<Call>,
    call: Call,
    start: int,
    len: nat,
)
    requires
        calls_within(before, after, start, len),
        call_within(call, start, len),
    ensures
        calls_within(before, after.push(call), start, len),
{
    assert(after.push(call).take(before.len() as int) =~= after.take(before.len() as int));
}

/// Calls within the addresses, and then more of them.
pub proof fn lemma_calls_within_trans(
    first: Seq<Call>,
    second: Seq<Call>,
    third: Seq<Call>,
    start: int,
    len: nat,
)
    requires
        calls_within(first, second, start, len),
        calls_within(second, third, start, len),
    ensures
        calls_within(first, third, start, len),
{
    assert(third.take(first.len() as int) =~= second.take(first.len() as int));
    assert forall|i: int| first.len() <= i < third.len() implies call_within(
        #[trigger] third[i],
        start,
        len,
    ) by {
        if i < second.len() {
            assert(third.take(second.len() as int)[i] == second[i]);
        }
    }
}

/// No call is within any addresses.
pub proof fn lemma_calls_within_none(calls: Seq<Call>, start: int, len: nat)
    ensures
        calls_within(calls, calls, start, len),
{
    assert(calls.take(calls.len() as int) =~= calls);
}

/// Whether `after` is `before` and then one read.
pub open spec fn is_read(before: Seq<Call>, after: Seq<Call>, address: u32, len: usize) -> bool {
    &&& after.len() == before.len() + 1
    &&& after == before.push(after.last())
    &&& after.last() matches Call::Read { address: at, len: count, .. } && at == address && count
        == len
}

/// What a read comes to: one that does not find as many bytes as were asked for
/// fails at its address.
pub open spec fn read_answer(call: Call) -> Result<Seq<u8>, ErrorView> {
    match call {
        Call::Read { address, len, bytes: Ok(bytes) } => if bytes.len() == len {
            Ok(bytes)
        } else {
            Err(ErrorView::InvalidMemoryAccess(address))
        },
        Call::Read { bytes: Err(error), .. } => Err(error),
        _ => Ok(Seq::empty()),
    }
}

/// The error that a call ended with.
pub open spec fn failure(call: Call) -> Option<ErrorView> {
    match call {
        Call::Read { .. } => match read_answer(call) {
            Ok(_) => None,
            Err(error) => Some(error),
        },
        Call::Write { done: Err(error), .. } => Some(error),
        _ => None,
    }
}

/// Whether an error came about as it should: the first failed call caused it,
/// and then no more calls were made.
pub open spec fn is_caused(
    before: Option<ErrorView>,
    after: Option<ErrorView>,
    calls_before: Seq<Call>,
    calls_after: Seq<Call>,
) -> bool {
    if before is Some {
        after == before && calls_after == calls_before
    } else {
        after is Some ==> calls_after.len() > calls_before.len() && failure(calls_after.last())
            == after
    }
}

/// The meaning of bytes that were read.
pub open spec fn bytes_view(bytes: Result<Vec<u8>, WieError>) -> Result<Seq<u8>, ErrorView> {
    match bytes {
        Ok(bytes) => Ok(bytes@),
        Err(error) => Err(error@),
    }
}

/// A context, with what was known of its memory before its first call.
pub struct Guest<C> {
    context: C,
    initial: Ghost<Bytes>,
}

impl<C: WIPICContext> Guest<C> {
    /// The calls so far, with their answers.
    pub closed spec fn calls(&self) -> Seq<Call> {
        self.context.record()
    }

    /// What was known of the memory before the first call.
    pub closed spec fn initial(&self) -> Bytes {
        self.initial@
    }

    /// What is known of the memory.
    pub open spec fn known(&self) -> Bytes {
        known(self.initial(), self.calls())
    }

    /// Whether the context behaved as a memory does so far.
    pub open spec fn consistent(&self) -> bool {
        consistent(self.initial(), self.calls())
    }

    /// The context.
    pub closed spec fn context(&self) -> C {
        self.context
    }

    /// A guest behind `context`, with nothing known of its memory before the
    /// context's first call.
    pub fn new(context: C) -> (guest: Guest<C>)
        ensures
            guest.context() == context,
            guest.initial() == Bytes::empty(),
            guest.calls() == context.record(),
    {
        Self::with_memory(context, Ghost(Map::empty()))
    }

    /// A guest behind `context`, with `initial` known of its memory before the
    /// context's first call. It may be chosen freely, up to the whole memory, so what is
    /// proved of a guest holds of every memory that its reads agree with.
    pub fn with_memory(context: C, Ghost(initial): Ghost<Bytes>) -> (guest: Guest<C>)
        ensures
            guest.context() == context,
            guest.initial() == initial,
            guest.calls() == context.record(),
    {
        Guest { context, initial: Ghost(initial) }
    }

    /// The context.
    pub fn into_inner(self) -> (context: C)
        ensures
            context == self.context(),
    {
        self.context
    }

    /// Allocates guest memory.
    pub fn allocate(&mut self, size: u32) -> (buffer: Result<WIPICIndirectPtr, WieError>)
        ensures
            final(self).initial() == old(self).initial(),
            final(self).calls() == old(self).calls().push(
                Call::Allocate { size, buffer: result_view(buffer) },
            ),
            final(self).known() == old(self).known(),
            final(self).consistent() == old(self).consistent(),
    {
        let ghost before = self.calls();
        let buffer = self.context.allocate(size);
        let ghost call = Call::Allocate { size, buffer: result_view(buffer) };
        assert(before.push(call).drop_last() =~= before);
        buffer
    }

    /// The address of allocated memory.
    pub fn data_ptr(&mut self, buffer: WIPICIndirectPtr) -> (address: Result<u32, WieError>)
        ensures
            final(self).initial() == old(self).initial(),
            final(self).calls() == old(self).calls().push(
                Call::Locate { pointer: buffer, located: result_view(address) },
            ),
            final(self).known() == old(self).known(),
            final(self).consistent() == old(self).consistent(),
    {
        let ghost before = self.calls();
        let address = self.context.data_ptr(buffer);
        let ghost call = Call::Locate { pointer: buffer, located: result_view(address) };
        assert(before.push(call).drop_last() =~= before);
        address
    }

    /// The `len` bytes from `address` on. A read that does not find as many
    /// fails at the address.
    pub fn read_bytes(&mut self, address: u32, len: usize) -> (bytes: Result<Vec<u8>, WieError>)
        ensures
            final(self).initial() == old(self).initial(),
            is_read(old(self).calls(), final(self).calls(), address, len),
            bytes_view(bytes) == read_answer(final(self).calls().last()),
            bytes is Ok ==> bytes->Ok_0@.len() == len,
            bytes is Ok ==> final(self).known() == stored(
                old(self).known(),
                address as int,
                bytes->Ok_0@,
            ),
            bytes is Ok ==> final(self).consistent() == (old(self).consistent() && admits(
                old(self).known(),
                address as int,
                bytes->Ok_0@,
            )),
            bytes is Err ==> final(self).known() == old(self).known(),
            bytes is Err ==> final(self).consistent() == old(self).consistent(),
    {
        let ghost before = self.calls();
        let bytes = self.context.read_bytes(address, len);
        let ghost call = Call::Read { address, len, bytes: bytes_view(bytes) };
        assert(before.push(call).drop_last() =~= before);
        match bytes {
            Ok(bytes) => {
                if bytes.len() == len {
                    Ok(bytes)
                } else {
                    Err(WieError::InvalidMemoryAccess(address))
                }
            },
            Err(error) => Err(error),
        }
    }

    /// Stores `data` from `address` on.
    pub fn write_bytes(&mut self, address: u32, data: &[u8]) -> (done: Result<(), WieError>)
        ensures
            final(self).initial() == old(self).initial(),
            final(self).calls() == old(self).calls().push(
                Call::Write { address, data: data@, done: result_view(done) },
            ),
            final(self).consistent() == old(self).consistent(),
            done is Ok ==> final(self).known() == stored(old(self).known(), address as int, data@),
            done is Err ==> final(self).known() == forgotten(
                old(self).known(),
                address as int,
                data@.len(),
            ),
    {
        let ghost before = self.calls();
        let done = self.context.write_bytes(address, data);
        let ghost call = Call::Write { address, data: data@, done: result_view(done) };
        assert(before.push(call).drop_last() =~= before);
        done
    }
}

/// Memory holds what was written last: after a write that succeeded its bytes stand from the
/// address on, and every other byte is as it was. A read changes nothing that is known, and
/// a complete one tells what stands there.
pub proof fn law_memory_holds_what_was_written(
    initial: Bytes,
    calls: Seq<Call>,
    address: u32,
    data: Seq<u8>,
    at: int,
)
    ensures
        ({
            let before = known(initial, calls);
            let wrote = known(
                initial,
                calls.push(Call::Write { address, data, done: Ok(()) }),
            );
            let read = known(
                initial,
                calls.push(Call::Read { address, len: data.len() as usize, bytes: Ok(data) }),
            );
            let inside = address <= at < address + data.len();
            &&& inside ==> byte_at(wrote, at) == Some(data[at - address])
            &&& !inside ==> byte_at(wrote, at) == byte_at(before, at)
            &&& data.len() <= usize::MAX && inside ==> byte_at(read, at) == Some(data[at - address])
            &&& !inside ==> byte_at(read, at) == byte_at(before, at)
        }),
{
    let write = Call::Write { address, data, done: Ok(()) };
    let read = Call::Read { address, len: data.len() as usize, bytes: Ok(data) };
    assert(calls.push(write).drop_last() =~= calls);
    assert(calls.push(read).drop_last() =~= calls);
}

/// A write that failed leaves open what stands where it was to go and nothing else; a read
/// that failed or was not complete, an allocation and the search for an address tell nothing
/// of the memory.
pub proof fn law_failed_calls_tell_nothing(
    initial: Bytes,
    calls: Seq<Call>,
    address: u32,
    data: Seq<u8>,
    len: usize,
    error: ErrorView,
    other: Call,
    at: int,
)
    requires
        other is Allocate || other is Locate || other == (Call::Read {
            address,
            len,
            bytes: Err(error),
        }) || other == (Call::Read { address, len, bytes: Ok(data) }) && data.len() != len,
    ensures
        ({
            let before = known(initial, calls);
            let failed = known(
                initial,
                calls.push(Call::Write { address, data, done: Err(error) }),
            );
            let inside = address <= at < address + data.len();
            &&& known(initial, calls.push(other)) == before
            &&& inside ==> byte_at(failed, at) is None
            &&& !inside ==> byte_at(failed, at) == byte_at(before, at)
        }),
{
    let failed = Call::Write { address, data, done: Err(error) };
    assert(calls.push(failed).drop_last() =~= calls);
    assert(calls.push(other).drop_last() =~= calls);
}

/// A context behaves as a memory does exactly where each complete read finds what was known:
/// one more such read must agree with it, and no other call can disagree.
pub proof fn law_consistent_reads_find_what_is_known(
    initial: Bytes,
    calls: Seq<Call>,
    address: u32,
    data: Seq<u8>,
    other: Call,
)
    requires
        data.len() <= usize::MAX,
        !(other is Read),
    ensures
        consistent(initial, Seq::empty()),
        consistent(initial, calls.push(other)) == consistent(initial, calls),
        consistent(
            initial,
            calls.push(Call::Read { address, len: data.len() as usize, bytes: Ok(data) }),
        ) == (consistent(initial, calls) && forall|i: int|
            0 <= i < data.len() ==> (byte_at(known(initial, calls), address + i) matches Some(byte)
                ==> byte == #[trigger] data[i])),
{
    let read = Call::Read { address, len: data.len() as usize, bytes: Ok(data) };
    assert(calls.push(read).drop_last() =~= calls);
    assert(calls.push(other).drop_last() =~= calls);
}

/// A read asks the context once, for just these bytes. It gives them where there are as many,
/// fails at the address where there are not, and passes on the context's own failure.
pub proof fn law_reads_are_asked_for_once<C: WIPICContext>(
    guest: &mut Guest<C>,
    address: u32,
    len: usize,
    bytes: Result<Vec<u8>, WieError>,
)
    requires
        call_ensures(Guest::<C>::read_bytes, (guest, address, len), bytes),
    ensures
        final(guest).calls().len() == old(guest).calls().len() + 1,
        final(guest).calls().drop_last() == old(guest).calls(),
        final(guest).calls().last() matches Call::Read { address: at, len: count, bytes: answer }
            && at == address && count == len && match answer {
            Ok(found) => if found.len() == len {
                bytes is Ok && bytes->Ok_0@ == found
            } else {
                bytes is Err && bytes->Err_0@ == ErrorView::InvalidMemoryAccess(address)
            },
            Err(error) => bytes is Err && bytes->Err_0@ == error,
        },
{
    assert(final(guest).calls().drop_last() =~= old(guest).calls());
}

/// A write hands the context just these bytes, once, and gives its answer; so do an allocation
/// and the search for an address.
pub proof fn law_other_calls_are_made_once<C: WIPICContext>(
    guest: &mut Guest<C>,
    address: u32,
    data: &[u8],
    done: Result<(), WieError>,
    maker: &mut Guest<C>,
    size: u32,
    buffer: Result<WIPICIndirectPtr, WieError>,
    finder: &mut Guest<C>,
    pointer: WIPICIndirectPtr,
    place: Result<u32, WieError>,
)
    requires
        call_ensures(Guest::<C>::write_bytes, (guest, address, data), done),
        call_ensures(Guest::<C>::allocate, (maker, size), buffer),
        call_ensures(Guest::<C>::data_ptr, (finder, pointer), place),
    ensures
        final(guest).calls().len() == old(guest).calls().len() + 1,
        final(guest).calls().drop_last() == old(guest).calls(),
        final(guest).calls().last() matches Call::Write { address: at, data: bytes, done: answer }
            && at == address && bytes == data@ && (answer is Ok == done is Ok) && (done is Err
            ==> answer == Err::<(), ErrorView>(done->Err_0@)),
        final(maker).calls().len() == old(maker).calls().len() + 1,
        final(maker).calls().last() matches Call::Allocate { size: asked, buffer: got } && asked
            == size && (buffer matches Ok(buffer) ==> got == Ok::<WIPICIndirectPtr, ErrorView>(
            buffer,
        )),
        final(finder).calls().len() == old(finder).calls().len() + 1,
        final(finder).calls().last() matches Call::Locate { pointer: asked, located } && asked
            == pointer && (place matches Ok(place) ==> located == Ok::<u32, ErrorView>(place)),
{
    assert(final(guest).calls().drop_last() =~= old(guest).calls());
}

/// A call failed exactly where the context said so, or where it read another number of bytes
/// than was asked for: that fails at the address.
pub proof fn law_calls_fail_as_the_context_says(
    address: u32,
    len: usize,
    found: Seq<u8>,
    error: ErrorView,
    data: Seq<u8>,
)
    ensures
        failure(Call::Read { address, len, bytes: Err(error) }) == Some(error),
        failure(Call::Read { address, len, bytes: Ok(found) }) == (if found.len() == len {
            None
        } else {
            Some(ErrorView::InvalidMemoryAccess(address))
        }),
        failure(Call::Write { address, data, done: Err(error) }) == Some(error),
        failure(Call::Write { address, data, done: Ok(()) }) is None,
{
}

} // verus!
