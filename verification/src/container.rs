//! The SDS container that wraps a TLG5 or TLG6 stream together with its
//! tags: the container magic, the stream's length and the stream, then a
//! `tags` chunk with its length and the tag block.

use vstd::prelude::*;
use crate::bytes::{le_bytes, le_u32_at};

verus! {

/// The container magic `TLG0.0\0sds\x1a`.
pub open spec fn sds_magic() -> Seq<u8> {
    seq![84u8, 76u8, 71u8, 48u8, 46u8, 48u8, 0u8, 115u8, 100u8, 115u8, 26u8]
}

/// The name of the tag chunk, `tags`.
pub open spec fn tags_chunk_name() -> Seq<u8> {
    seq![116u8, 97u8, 103u8, 115u8]
}

/// The container holding the stream `raw` and the tag block `tb`.
pub open spec fn sds_bytes(raw: Seq<u8>, tb: Seq<u8>) -> Seq<u8> {
    sds_magic() + le_bytes(raw.len() as u32) + raw + tags_chunk_name() + le_bytes(tb.len() as u32) + tb
}

/// Whether `data` opens with the container magic.
pub fn has_sds_magic(data: &[u8]) -> (b: bool)
    requires
        data@.len() >= 11,
    ensures
        b == (data@.take(11) == sds_magic()),
{
    let ok = data[0] == 84 && data[1] == 76 && data[2] == 71 && data[3] == 48 && data[4] == 46
        && data[5] == 48 && data[6] == 0 && data[7] == 115 && data[8] == 100 && data[9] == 115
        && data[10] == 26;
    proof {
        if ok {
            assert(data@.take(11) =~= sds_magic());
        } else if data@.take(11) == sds_magic() {
            assert(data@.take(11)[0] == 84u8 && data@.take(11)[1] == 76u8 && data@.take(11)[2] == 71u8
                && data@.take(11)[3] == 48u8 && data@.take(11)[4] == 46u8 && data@.take(11)[5] == 48u8
                && data@.take(11)[6] == 0u8 && data@.take(11)[7] == 115u8 && data@.take(11)[8] == 100u8
                && data@.take(11)[9] == 115u8 && data@.take(11)[10] == 26u8);
        }
    }
    ok
}

/// Appends `src` to `dst`.
pub fn append_slice(dst: &mut Vec<u8>, src: &[u8])
    ensures
        final(dst)@ == old(dst)@ + src@,
{
    dst.extend_from_slice(src);
    proof {
        assert forall|k: int| 0 <= k < src@.len() implies final(dst)@[old(dst)@.len() + k] == src@[k] by {
            assert(cloned(src@[k], final(dst)@[old(dst)@.len() + k]));
        }
        assert(final(dst)@ =~= old(dst)@ + src@);
    }
}

/// Wraps the stream `raw` and the tag block `tb` in a container.
pub fn wrap_sds(raw: &[u8], tb: &[u8]) -> (out: Vec<u8>)
    requires
        raw@.len() <= u32::MAX,
        tb@.len() <= u32::MAX,
    ensures
        out@ == sds_bytes(raw@, tb@),
{
    let mut out: Vec<u8> = Vec::new();
    out.push(84);
    out.push(76);
    out.push(71);
    out.push(48);
    out.push(46);
    out.push(48);
    out.push(0);
    out.push(115);
    out.push(100);
    out.push(115);
    out.push(26);
    assert(out@ =~= sds_magic());
    crate::bytes::push_u32_le(&mut out, raw.len() as u32);
    append_slice(&mut out, raw);
    out.push(116);
    out.push(97);
    out.push(103);
    out.push(115);
    assert(out@ =~= sds_magic() + le_bytes(raw@.len() as u32) + raw@ + tags_chunk_name());
    crate::bytes::push_u32_le(&mut out, tb.len() as u32);
    append_slice(&mut out, tb);
    out
}

/// The parts of a container: the stream, cut at the end of the data where
/// its length runs past it, and the bytes after the stream.
pub open spec fn sds_parts(data: Seq<u8>) -> (Seq<u8>, Seq<u8>) {
    let end = if 15 + le_u32_at(data, 11) <= data.len() {
        15 + le_u32_at(data, 11)
    } else {
        data.len() as int
    };
    (data.subrange(15, end), data.skip(end))
}

/// A container splits back into the stream and the chunk after it.
pub proof fn lemma_sds_parts(raw: Seq<u8>, tb: Seq<u8>)
    requires
        raw.len() <= u32::MAX,
        tb.len() <= u32::MAX,
    ensures
        sds_bytes(raw, tb).len() >= 15,
        sds_bytes(raw, tb).take(11) == sds_magic(),
        sds_parts(sds_bytes(raw, tb)) == (raw, tags_chunk_name() + le_bytes(tb.len() as u32) + tb),
        le_u32_at(tags_chunk_name() + le_bytes(tb.len() as u32) + tb, 4) == tb.len(),
{
    let d = sds_bytes(raw, tb);
    let lr = le_bytes(raw.len() as u32);
    let lt = le_bytes(tb.len() as u32);
    crate::bytes::lemma_le_bytes_value(raw.len() as u32);
    crate::bytes::lemma_le_bytes_value(tb.len() as u32);
    assert(d.take(11) =~= sds_magic());
    assert(d[11] == lr[0] && d[12] == lr[1] && d[13] == lr[2] && d[14] == lr[3]);
    assert(le_u32_at(d, 11) == raw.len());
    assert(d.subrange(15, 15 + raw.len() as int) =~= raw);
    assert(d.skip(15 + raw.len() as int) =~= tags_chunk_name() + lt + tb);
    let t = tags_chunk_name() + lt + tb;
    assert(t[4] == lt[0] && t[5] == lt[1] && t[6] == lt[2] && t[7] == lt[3]);
}

} // verus!
