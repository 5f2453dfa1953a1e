//! Format emulation: wraps arbitrary bytes in the archive codec's chunk
//! framing, with every chunk tagged as raw, so that the host's decompressor
//! hands the bytes back unchanged.
use vstd::prelude::*;

verus! {

/// Largest number of payload bytes in one chunk.
pub const CHUNK_LEN: usize = 0x1FFF;

/// Bit of the flags field that marks the whole chunk as raw bytes.
pub const RAW_FLAG: u16 = 0x2000;

/// Two bytes, little-endian.
pub open spec fn le16(n: nat) -> Seq<u8> {
    seq![(n % 256) as u8, (n / 256 % 256) as u8]
}

/// Two bytes, big-endian.
pub open spec fn be16(n: nat) -> Seq<u8> {
    seq![(n / 256 % 256) as u8, (n % 256) as u8]
}

/// The "has more chunks" byte.
pub open spec fn more_byte(more: bool) -> u8 {
    if more { 1u8 } else { 0u8 }
}

/// One raw chunk: total size (payload + 4), flags with the raw bit and the
/// payload length, the payload, and whether another chunk follows.
pub open spec fn chunk_frame(chunk: Seq<u8>, more: bool) -> Seq<u8> {
    le16(chunk.len() + 4) + be16(chunk.len() + RAW_FLAG as nat) + chunk + seq![more_byte(more)]
}

/// The frames of `data`, cut into chunks of `CHUNK_LEN` bytes (the last one
/// shorter).
pub open spec fn chunk_frames(data: Seq<u8>) -> Seq<u8>
    decreases data.len(),
{
    if data.len() == 0 {
        seq![]
    } else {
        let k: int = if data.len() <= CHUNK_LEN { data.len() as int } else { CHUNK_LEN as int };
        chunk_frame(data.take(k), data.len() > k) + chunk_frames(data.skip(k))
    }
}

/// The whole container: an empty marker chunk, then the chunk frames.
pub open spec fn fake_compressed(data: Seq<u8>) -> Seq<u8> {
    le16(2) + seq![more_byte(data.len() > 0)] + chunk_frames(data)
}

/// Reference reading of a sequence of raw chunk frames: each frame must carry
/// the raw bit, a size that agrees with its payload, and a "more" byte; the
/// last frame says that nothing follows, and nothing does.
pub open spec fn decode_frames(c: Seq<u8>) -> Option<Seq<u8>>
    decreases c.len(),
{
    if c.len() < 5 {
        None
    } else {
        let size = c[0] as nat + c[1] as nat * 256;
        let flags = c[2] as nat * 256 + c[3] as nat;
        if flags < RAW_FLAG as nat || flags >= 2 * RAW_FLAG as nat {
            None
        } else {
            let n = (flags - RAW_FLAG as nat) as int;
            if size != n + 4 || c.len() < n + 5 {
                None
            } else {
                let payload = c.subrange(4, 4 + n);
                let rest = c.skip(5 + n);
                if c[4 + n] == 0 {
                    if rest.len() == 0 { Some(payload) } else { None }
                } else {
                    match decode_frames(rest) {
                        Some(tail) => Some(payload + tail),
                        None => None,
                    }
                }
            }
        }
    }
}

/// Reference reading of a whole container: the empty marker chunk, then the
/// frames it announces.
pub open spec fn raw_decode(c: Seq<u8>) -> Option<Seq<u8>> {
    if c.len() < 3 || c[0] != 2 || c[1] != 0 {
        None
    } else if c[2] == 0 {
        if c.len() == 3 { Some(Seq::empty()) } else { None }
    } else {
        decode_frames(c.skip(3))
    }
}

proof fn lemma_decode_frames(data: Seq<u8>)
    requires
        data.len() > 0,
    ensures
        decode_frames(chunk_frames(data)) == Some(data),
    decreases data.len(),
{
    let k: int = if data.len() <= CHUNK_LEN { data.len() as int } else { CHUNK_LEN as int };
    let more = data.len() > k;
    let head = data.take(k);
    let tail = data.skip(k);
    let c = chunk_frames(data);
    let frame = chunk_frame(head, more);
    assert(c == frame + chunk_frames(tail));
    assert(frame.len() == k + 5);
    assert(c[0] as nat + c[1] as nat * 256 == k + 4);
    assert(c[2] as nat * 256 + c[3] as nat == k + RAW_FLAG as nat);
    assert(c.subrange(4, 4 + k) == head);
    assert(c[4 + k] == more_byte(more));
    assert(c.skip(5 + k) == chunk_frames(tail));
    if more {
        lemma_decode_frames(tail);
        assert(head + tail == data);
    } else {
        assert(tail.len() == 0);
        assert(head == data);
    }
}

/// The container decodes, under the reference raw-chunk reading, to exactly
/// the bytes it was made from; an empty input gives the bare marker chunk.
pub proof fn lemma_fake_compress_round_trip(data: Seq<u8>)
    ensures
        raw_decode(fake_compressed(data)) == Some(data),
{
    let c = fake_compressed(data);
    let head = le16(2) + seq![more_byte(data.len() > 0)];
    assert(c == head + chunk_frames(data));
    assert(c[0] == 2 && c[1] == 0);
    assert(c[2] == more_byte(data.len() > 0));
    if data.len() == 0 {
        assert(chunk_frames(data) == Seq::<u8>::empty());
        assert(c.len() == 3);
        assert(data == Seq::<u8>::empty());
    } else {
        lemma_decode_frames(data);
        assert(c.skip(3) == chunk_frames(data));
    }
}

/// Every container starts with the empty marker chunk's size, `02 00`.
pub proof fn lemma_marker_first(data: Seq<u8>)
    ensures
        fake_compressed(data).len() >= 3,
        fake_compressed(data)[0] == 2,
        fake_compressed(data)[1] == 0,
        fake_compressed(data)[2] == more_byte(data.len() > 0),
{
}

/// Appends `n` as two little-endian bytes.
fn push_le16(out: &mut Vec<u8>, n: u16)
    ensures
        final(out)@ == old(out)@ + le16(n as nat),
{
    out.push((n % 256) as u8);
    out.push((n / 256) as u8);
}

/// Appends `n` as two big-endian bytes.
fn push_be16(out: &mut Vec<u8>, n: u16)
    ensures
        final(out)@ == old(out)@ + be16(n as nat),
{
    out.push((n / 256) as u8);
    out.push((n % 256) as u8);
}

/// "Compresses" `data` by wrapping it in raw chunks: an empty marker chunk
/// first (the host's decompressor always reads one chunk ahead), then frames
/// of at most `CHUNK_LEN` bytes each.
pub fn fake_compress(data: &[u8]) -> (out: Vec<u8>)
    ensures
        out@ == fake_compressed(data@),
{
    let n = data.len();
    let mut out: Vec<u8> = Vec::new();
    push_le16(&mut out, 2);
    out.push(if n > 0 { 1u8 } else { 0u8 });
    let mut i: usize = 0;
    proof {
        assert(data@.skip(0) == data@);
        assert(out@ == le16(2) + seq![more_byte(n > 0)]);
    }
    while i < n
        invariant
            n == data@.len(),
            i <= n,
            out@ + chunk_frames(data@.skip(i as int)) == fake_compressed(data@),
        decreases n - i,
    {
        let rest = Ghost(data@.skip(i as int));
        let k: usize = if n - i <= CHUNK_LEN { n - i } else { CHUNK_LEN };
        let mark = Ghost(out@);
        push_le16(&mut out, (k + 4) as u16);
        push_be16(&mut out, (k as u16) | RAW_FLAG);
        assert((k as u16) | RAW_FLAG == k + RAW_FLAG) by (bit_vector)
            requires k <= 0x1FFF;
        let mut j: usize = i;
        while j < i + k
            invariant
                n == data@.len(),
                i + k <= n,
                i <= j <= i + k,
                out@ == mark@ + le16((k + 4) as nat) + be16((k + RAW_FLAG) as nat) + data@.subrange(i as int, j as int),
            decreases i + k - j,
        {
            out.push(data[j]);
            proof {
                assert(data@.subrange(i as int, j + 1) == data@.subrange(i as int, j as int).push(data@[j as int]));
            }
            j += 1;
        }
        out.push(if i + k < n { 1u8 } else { 0u8 });
        proof {
            assert(rest@.take(k as int) == data@.subrange(i as int, (i + k) as int));
            assert(rest@.skip(k as int) == data@.skip((i + k) as int));
            assert(out@ + chunk_frames(data@.skip((i + k) as int)) == mark@ + chunk_frames(rest@));
        }
        i = i + k;
    }
    proof {
        assert(data@.skip(n as int).len() == 0);
    }
    out
}

} // verus!
