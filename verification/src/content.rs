//! The bytes of a file, and what reading, writing and resizing do to them.

use vstd::prelude::*;

verus! {

/// `content` cut or filled with zero bytes to `len` bytes.
pub open spec fn resized(content: Seq<u8>, len: nat) -> Seq<u8> {
    Seq::new(
        len,
        |i: int|
            if i < content.len() {
                content[i]
            } else {
                0u8
            },
    )
}

/// `content` with `data` placed at `offset`. A gap before `offset` is filled
/// with zero bytes; what stands behind the written bytes is kept.
pub open spec fn written(content: Seq<u8>, offset: nat, data: Seq<u8>) -> Seq<u8> {
    let end = offset + data.len();
    Seq::new(
        if content.len() < end {
            end
        } else {
            content.len()
        },
        |i: int|
            if offset <= i < end {
                data[i - offset]
            } else if i < content.len() {
                content[i]
            } else {
                0u8
            },
    )
}

/// At most `count` bytes of `content`, from `offset` on.
pub open spec fn portion(content: Seq<u8>, offset: nat, count: nat) -> Seq<u8> {
    if offset >= content.len() {
        Seq::empty()
    } else if count < content.len() - offset {
        content.subrange(offset as int, (offset + count) as int)
    } else {
        content.skip(offset as int)
    }
}

/// Reading where data was just written gives the data back.
pub proof fn law_read_after_write(content: Seq<u8>, offset: nat, data: Seq<u8>)
    ensures
        portion(written(content, offset, data), offset, data.len()) == data,
{
    assert(portion(written(content, offset, data), offset, data.len()) =~= data);
}

/// A write keeps every byte that it does not cover, and fills a gap with zeros.
pub proof fn law_write_keeps_the_rest(content: Seq<u8>, offset: nat, data: Seq<u8>, i: int)
    requires
        0 <= i < written(content, offset, data).len(),
        i < offset || offset + data.len() <= i,
    ensures
        written(content, offset, data)[i] == (if i < content.len() {
            content[i]
        } else {
            0u8
        }),
{
}

/// Resizing keeps the bytes that fit and fills the rest with zeros.
pub proof fn law_resize_keeps_prefix(content: Seq<u8>, len: nat)
    ensures
        resized(content, len).len() == len,
        len <= content.len() ==> resized(content, len) == content.take(len as int),
        len >= content.len() ==> resized(content, len).take(content.len() as int) == content,
        forall|i: int| content.len() <= i < len ==> #[trigger] resized(content, len)[i] == 0,
{
    if len <= content.len() {
        assert(resized(content, len) =~= content.take(len as int));
    }
    if len >= content.len() {
        assert(resized(content, len).take(content.len() as int) =~= content);
    }
}

/// Cuts or zero-fills `content` to `len` bytes.
pub fn resize(content: &mut Vec<u8>, len: usize)
    ensures
        final(content)@ == resized(old(content)@, len as nat),
{
    let ghost before = content@;
    content.resize(len, 0);
    assert(content@ =~= resized(before, len as nat));
}

/// Places `data` at `offset`.
pub fn write_at(content: &mut Vec<u8>, offset: usize, data: &[u8])
    requires
        offset + data@.len() <= usize::MAX,
    ensures
        final(content)@ == written(old(content)@, offset as nat, data@),
{
    let ghost before = content@;
    let end = offset + data.len();
    if content.len() < end {
        content.resize(end, 0);
    }
    let ghost sized = content@;
    let mut i: usize = 0;
    while i < data.len()
        invariant
            i <= data@.len(),
            offset + data@.len() == end,
            end <= content@.len(),
            content@.len() == sized.len(),
            forall|k: int|
                0 <= k < content@.len() ==> #[trigger] content@[k] == (if offset <= k < offset + i {
                    data@[k - offset]
                } else {
                    sized[k]
                }),
        decreases data@.len() - i,
    {
        content.set(offset + i, data[i]);
        i += 1;
    }
    assert(content@ =~= written(before, offset as nat, data@));
}

/// Copies at most `count` bytes from `offset` on into `buf`, as far as it
/// reaches, and says how many.
pub fn read_into(content: &Vec<u8>, offset: usize, count: usize, buf: &mut [u8]) -> (read: usize)
    ensures
        final(buf)@.len() == old(buf)@.len(),
        ({
            let limit = if count < old(buf)@.len() {
                count as nat
            } else {
                old(buf)@.len()
            };
            let bytes = portion(content@, offset as nat, limit);
            &&& read == bytes.len()
            &&& final(buf)@ == bytes + old(buf)@.skip(bytes.len() as int)
        }),
{
    let ghost before = buf@;
    if offset >= content.len() {
        assert(buf@ =~= Seq::<u8>::empty() + before.skip(0));
        return 0;
    }
    let mut read: usize = if count < buf.len() {
        count
    } else {
        buf.len()
    };
    let ghost limit = read;
    if content.len() - offset < read {
        read = content.len() - offset;
    }
    let mut i: usize = 0;
    while i < read
        invariant
            i <= read,
            offset + read <= content.len(),
            read <= before.len(),
            buf@ == content@.subrange(offset as int, offset + i) + before.skip(i as int),
        decreases read - i,
    {
        buf[i] = content[offset + i];
        assert(buf@ =~= content@.subrange(offset as int, offset + i + 1) + before.skip(i + 1));
        i += 1;
    }
    assert(portion(content@, offset as nat, limit as nat) =~= content@.subrange(
        offset as int,
        offset + read,
    ));
    read
}

/// A write makes a file as long as it was, or as long as the written bytes reach,
/// whichever is more, and puts every one of them in its place.
pub proof fn law_a_write_reaches_as_far_as_its_data(content: Seq<u8>, offset: nat, data: Seq<u8>)
    ensures
        written(content, offset, data).len() >= content.len(),
        written(content, offset, data).len() >= offset + data.len(),
        written(content, offset, data).len() == content.len() || written(
            content,
            offset,
            data,
        ).len() == offset + data.len(),
        forall|i: int|
            0 <= i < data.len() ==> #[trigger] data[i] == written(content, offset, data)[offset + i],
{
}

/// A read gives the bytes of the file from the offset on, in order: as many as are
/// asked for, unless the file ends before.
pub proof fn law_a_read_gives_the_bytes_there(content: Seq<u8>, offset: nat, count: nat)
    ensures
        portion(content, offset, count).len() <= count,
        offset + portion(content, offset, count).len() <= content.len() || portion(
            content,
            offset,
            count,
        ).len() == 0,
        portion(content, offset, count).len() == count || offset + portion(
            content,
            offset,
            count,
        ).len() >= content.len(),
        forall|i: int|
            0 <= i < portion(content, offset, count).len() ==> #[trigger] portion(
                content,
                offset,
                count,
            )[i] == content[offset + i],
{
}

/// Resizing twice is resizing once, as long as the first does not cut below the
/// second, and resizing to the length that a file has changes nothing.
pub proof fn law_resizing_settles(content: Seq<u8>, len: nat, more: nat)
    requires
        len <= more,
    ensures
        resized(resized(content, more), len) == resized(content, len),
        resized(content, content.len()) == content,
{
    assert(resized(resized(content, more), len) =~= resized(content, len));
    assert(resized(content, content.len()) =~= content);
}

} // verus!
