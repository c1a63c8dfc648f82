//! The protocol's message set and its binary codec: a tag-discriminated,
//! self-describing envelope with positional fields, one message per
//! datagram.

use vstd::prelude::*;
use vstd::utf8::{
    decode_utf8, encode_utf8, encode_utf8_decode_utf8, encode_utf8_valid_utf8, valid_utf8,
    decode_utf8_encode_utf8,
};
use crate::error::ProtocolError;
use crate::util::push_slice;
use crate::CHUNK_SIZE;

verus! {

/// A protocol message. String fields carry file hashes (hex), target paths
/// and failure reasons; ranges are closed `(first, last)` chunk-index
/// intervals.
#[derive(Debug, Clone, PartialEq, Eq)]
pub enum Message {
    /// Announces interest in a file by hash.
    Sync(String),
    /// Announces the expected chunk count for a hash.
    Metadata(String, u32),
    /// Carries the payload of one chunk.
    ReceiveChunk(String, u32, Vec<u8>),
    /// Positive acknowledgment: every expected chunk of the hash is stored.
    ACK(String),
    /// Negative acknowledgment, optionally carrying the missing ranges.
    NAK(String, Option<Vec<(u32, u32)>>),
    /// Asks the peer to receive a file: channel, hash, target path, mode.
    ReqReceive(u64, String, String, Option<u32>),
    /// Asks the peer to transmit the file at a path: channel, source path.
    ReqTransmit(u64, String),
    /// Reports that a requested receive completed.
    SuccessReceive(u64),
    /// Reports a transmit offer: channel, hash, chunk count, mode.
    SuccessTransmit(u64, String, u32, Option<u32>),
    /// Reports a failure on a channel with a human-readable reason.
    Failure(u64, String),
}

/// The mathematical shape of a message: the same variants over character
/// and byte sequences.
pub enum MessageView {
    Sync(Seq<char>),
    Metadata(Seq<char>, u32),
    ReceiveChunk(Seq<char>, u32, Seq<u8>),
    ACK(Seq<char>),
    NAK(Seq<char>, Option<Seq<(u32, u32)>>),
    ReqReceive(u64, Seq<char>, Seq<char>, Option<u32>),
    ReqTransmit(u64, Seq<char>),
    SuccessReceive(u64),
    SuccessTransmit(u64, Seq<char>, u32, Option<u32>),
    Failure(u64, Seq<char>),
}

impl View for Message {
    type V = MessageView;

    open spec fn view(&self) -> MessageView {
        match self {
            Message::Sync(h) => MessageView::Sync(h@),
            Message::Metadata(h, n) => MessageView::Metadata(h@, *n),
            Message::ReceiveChunk(h, i, d) => MessageView::ReceiveChunk(h@, *i, d@),
            Message::ACK(h) => MessageView::ACK(h@),
            Message::NAK(h, o) => MessageView::NAK(
                h@,
                match o {
                    Some(rs) => Some(rs@),
                    None => None,
                },
            ),
            Message::ReqReceive(c, h, p, m) => MessageView::ReqReceive(*c, h@, p@, *m),
            Message::ReqTransmit(c, p) => MessageView::ReqTransmit(*c, p@),
            Message::SuccessReceive(c) => MessageView::SuccessReceive(*c),
            Message::SuccessTransmit(c, h, n, m) => MessageView::SuccessTransmit(*c, h@, *n, *m),
            Message::Failure(c, r) => MessageView::Failure(*c, r@),
        }
    }
}

/// A string fits on the wire when its UTF-8 form fits a 32-bit length.
pub open spec fn str_wf(s: Seq<char>) -> bool {
    encode_utf8(s).len() <= u32::MAX
}

/// A message can be encoded: its strings fit 32-bit lengths, a chunk
/// payload respects the maximum chunk size, and a range list fits a 32-bit
/// count.
pub open spec fn msg_wf(m: MessageView) -> bool {
    match m {
        MessageView::Sync(h) => str_wf(h),
        MessageView::Metadata(h, _) => str_wf(h),
        MessageView::ReceiveChunk(h, _, d) => str_wf(h) && d.len() <= CHUNK_SIZE,
        MessageView::ACK(h) => str_wf(h),
        MessageView::NAK(h, o) => str_wf(h) && match o {
            Some(rs) => rs.len() <= u32::MAX,
            None => true,
        },
        MessageView::ReqReceive(_, h, p, _) => str_wf(h) && str_wf(p),
        MessageView::ReqTransmit(_, p) => str_wf(p),
        MessageView::SuccessReceive(_) => true,
        MessageView::SuccessTransmit(_, h, _, _) => str_wf(h),
        MessageView::Failure(_, r) => str_wf(r),
    }
}

/// Big-endian bytes of a 32-bit value.
pub open spec fn be32(v: u32) -> Seq<u8> {
    seq![
        ((v >> 24) & 0xff) as u8,
        ((v >> 16) & 0xff) as u8,
        ((v >> 8) & 0xff) as u8,
        (v & 0xff) as u8,
    ]
}

/// Big-endian bytes of a 64-bit value.
pub open spec fn be64(v: u64) -> Seq<u8> {
    seq![
        ((v >> 56) & 0xff) as u8,
        ((v >> 48) & 0xff) as u8,
        ((v >> 40) & 0xff) as u8,
        ((v >> 32) & 0xff) as u8,
        ((v >> 24) & 0xff) as u8,
        ((v >> 16) & 0xff) as u8,
        ((v >> 8) & 0xff) as u8,
        (v & 0xff) as u8,
    ]
}

/// A length-prefixed byte field.
pub open spec fn enc_bytes(b: Seq<u8>) -> Seq<u8> {
    be32(b.len() as u32) + b
}

/// A length-prefixed UTF-8 string field.
pub open spec fn enc_str(s: Seq<char>) -> Seq<u8> {
    enc_bytes(encode_utf8(s))
}

/// An optional 32-bit field: a presence byte, then the value if present.
pub open spec fn enc_opt_u32(o: Option<u32>) -> Seq<u8> {
    match o {
        None => seq![0u8],
        Some(v) => seq![1u8] + be32(v),
    }
}

/// The flattened pairs of a range list.
pub open spec fn enc_pairs(rs: Seq<(u32, u32)>) -> Seq<u8>
    decreases rs.len(),
{
    if rs.len() == 0 {
        Seq::empty()
    } else {
        be32(rs[0].0) + be32(rs[0].1) + enc_pairs(rs.drop_first())
    }
}

/// An optional range list: a presence byte, then a count and the pairs.
pub open spec fn enc_opt_ranges(o: Option<Seq<(u32, u32)>>) -> Seq<u8> {
    match o {
        None => seq![0u8],
        Some(rs) => seq![1u8] + be32(rs.len() as u32) + enc_pairs(rs),
    }
}

/// The wire bytes of a message: a one-byte variant tag followed by the
/// variant's fields in order.
pub open spec fn msg_enc(m: MessageView) -> Seq<u8> {
    match m {
        MessageView::Sync(h) => seq![0u8] + enc_str(h),
        MessageView::Metadata(h, n) => seq![1u8] + enc_str(h) + be32(n),
        MessageView::ReceiveChunk(h, i, d) => seq![2u8] + enc_str(h) + be32(i) + enc_bytes(d),
        MessageView::ACK(h) => seq![3u8] + enc_str(h),
        MessageView::NAK(h, o) => seq![4u8] + enc_str(h) + enc_opt_ranges(o),
        MessageView::ReqReceive(c, h, p, m_) => seq![5u8] + be64(c) + enc_str(h) + enc_str(p)
            + enc_opt_u32(m_),
        MessageView::ReqTransmit(c, p) => seq![6u8] + be64(c) + enc_str(p),
        MessageView::SuccessReceive(c) => seq![7u8] + be64(c),
        MessageView::SuccessTransmit(c, h, n, m_) => seq![8u8] + be64(c) + enc_str(h) + be32(n)
            + enc_opt_u32(m_),
        MessageView::Failure(c, r) => seq![9u8] + be64(c) + enc_str(r),
    }
}

fn write_be32(out: &mut Vec<u8>, v: u32)
    ensures
        final(out)@ == old(out)@ + be32(v),
{
    out.push(((v >> 24) & 0xff) as u8);
    out.push(((v >> 16) & 0xff) as u8);
    out.push(((v >> 8) & 0xff) as u8);
    out.push((v & 0xff) as u8);
    proof {
        assert(out@ =~= old(out)@ + be32(v));
    }
}

fn write_be64(out: &mut Vec<u8>, v: u64)
    ensures
        final(out)@ == old(out)@ + be64(v),
{
    out.push(((v >> 56) & 0xff) as u8);
    out.push(((v >> 48) & 0xff) as u8);
    out.push(((v >> 40) & 0xff) as u8);
    out.push(((v >> 32) & 0xff) as u8);
    out.push(((v >> 24) & 0xff) as u8);
    out.push(((v >> 16) & 0xff) as u8);
    out.push(((v >> 8) & 0xff) as u8);
    out.push((v & 0xff) as u8);
    proof {
        assert(out@ =~= old(out)@ + be64(v));
    }
}

fn write_bytes(out: &mut Vec<u8>, b: &[u8]) -> (r: Result<(), ProtocolError>)
    ensures
        r is Ok <==> b@.len() <= u32::MAX,
        r is Ok ==> final(out)@ == old(out)@ + enc_bytes(b@),
        r is Err ==> final(out)@ == old(out)@ && r->Err_0 is Decode,
{
    if b.len() as u64 > 0xffff_ffffu64 {
        return Err(ProtocolError::Decode);
    }
    write_be32(out, b.len() as u32);
    push_slice(out, b);
    proof {
        assert(out@ =~= old(out)@ + enc_bytes(b@));
    }
    Ok(())
}

fn write_str(out: &mut Vec<u8>, s: &str) -> (r: Result<(), ProtocolError>)
    ensures
        r is Ok <==> str_wf(s@),
        r is Ok ==> final(out)@ == old(out)@ + enc_str(s@),
        r is Err ==> final(out)@ == old(out)@ && r->Err_0 is Decode,
{
    write_bytes(out, s.as_bytes())
}

fn write_opt_u32(out: &mut Vec<u8>, o: &Option<u32>)
    ensures
        final(out)@ == old(out)@ + enc_opt_u32(*o),
{
    match o {
        None => {
            out.push(0u8);
            proof {
                assert(out@ =~= old(out)@ + enc_opt_u32(None::<u32>));
            }
        }
        Some(v) => {
            out.push(1u8);
            write_be32(out, *v);
            proof {
                assert(out@ =~= old(out)@ + enc_opt_u32(Some(*v)));
            }
        }
    }
}

proof fn lemma_enc_pairs_snoc(rs: Seq<(u32, u32)>, k: int)
    requires
        0 <= k < rs.len(),
    ensures
        enc_pairs(rs.take(k + 1)) == enc_pairs(rs.take(k)) + be32(rs[k].0) + be32(rs[k].1),
    decreases k,
{
    if k == 0 {
        assert(rs.take(1)[0] == rs[0]);
        assert(rs.take(1).drop_first() =~= rs.take(0));
        assert(enc_pairs(rs.take(0)) == Seq::<u8>::empty());
        assert(enc_pairs(rs.take(1)) =~= enc_pairs(rs.take(0)) + be32(rs[0].0) + be32(rs[0].1));
    } else {
        let t = rs.drop_first();
        lemma_enc_pairs_snoc(t, k - 1);
        assert(rs.take(k + 1)[0] == rs[0]);
        assert(rs.take(k)[0] == rs[0]);
        assert(rs.take(k + 1).drop_first() =~= t.take(k));
        assert(rs.take(k).drop_first() =~= t.take(k - 1));
        assert(t[k - 1] == rs[k]);
        assert(enc_pairs(rs.take(k + 1)) == be32(rs[0].0) + be32(rs[0].1) + enc_pairs(t.take(k)));
        assert(enc_pairs(rs.take(k)) == be32(rs[0].0) + be32(rs[0].1) + enc_pairs(t.take(k - 1)));
        assert(be32(rs[0].0) + be32(rs[0].1) + (enc_pairs(t.take(k - 1)) + be32(rs[k].0) + be32(
            rs[k].1,
        )) =~= (be32(rs[0].0) + be32(rs[0].1) + enc_pairs(t.take(k - 1))) + be32(rs[k].0) + be32(
            rs[k].1,
        ));
    }
}

fn write_opt_ranges(out: &mut Vec<u8>, o: &Option<Vec<(u32, u32)>>) -> (r: Result<
    (),
    ProtocolError,
>)
    ensures
        r is Ok <==> match *o {
            Some(rs) => rs@.len() <= u32::MAX,
            None => true,
        },
        r is Ok ==> final(out)@ == old(out)@ + enc_opt_ranges(
            match *o {
                Some(rs) => Some(rs@),
                None => None,
            },
        ),
        r is Err ==> r->Err_0 is Decode,
{
    match o {
        None => {
            out.push(0u8);
            proof {
                assert(out@ =~= old(out)@ + enc_opt_ranges(None::<Seq<(u32, u32)>>));
            }
            Ok(())
        }
        Some(rs) => {
            if rs.len() as u64 > 0xffff_ffffu64 {
                return Err(ProtocolError::Decode);
            }
            out.push(1u8);
            write_be32(out, rs.len() as u32);
            let ghost pre = out@;
            let mut k: usize = 0;
            while k < rs.len()
                invariant
                    k <= rs@.len(),
                    out@ == pre + enc_pairs(rs@.take(k as int)),
                decreases rs@.len() - k,
            {
                let (a, b) = rs[k];
                write_be32(out, a);
                write_be32(out, b);
                proof {
                    lemma_enc_pairs_snoc(rs@, k as int);
                    assert(pre + enc_pairs(rs@.take(k as int + 1)) =~= (pre + enc_pairs(
                        rs@.take(k as int),
                    )) + be32(rs@[k as int].0) + be32(rs@[k as int].1));
                }
                k += 1;
            }
            proof {
                assert(rs@.take(rs@.len() as int) =~= rs@);
                assert(out@ =~= old(out)@ + enc_opt_ranges(Some(rs@)));
            }
            Ok(())
        }
    }
}

/// Encodes a message into its wire bytes; fails exactly when a field
/// exceeds the wire limits.
pub fn encode_message(msg: &Message) -> (r: Result<Vec<u8>, ProtocolError>)
    ensures
        r is Ok <==> msg_wf(msg@),
        r matches Ok(b) ==> b@ == msg_enc(msg@),
        r matches Err(e) ==> e is Decode,
{
    let mut out: Vec<u8> = Vec::new();
    match msg {
        Message::Sync(h) => {
            out.push(0u8);
            write_str(&mut out, h.as_str())?;
            proof {
                assert(out@ =~= msg_enc(msg@));
            }
            Ok(out)
        }
        Message::Metadata(h, n) => {
            out.push(1u8);
            write_str(&mut out, h.as_str())?;
            write_be32(&mut out, *n);
            proof {
                assert(out@ =~= msg_enc(msg@));
            }
            Ok(out)
        }
        Message::ReceiveChunk(h, i, d) => {
            if d.len() > CHUNK_SIZE {
                return Err(ProtocolError::Decode);
            }
            out.push(2u8);
            write_str(&mut out, h.as_str())?;
            write_be32(&mut out, *i);
            write_bytes(&mut out, d.as_slice())?;
            proof {
                assert(out@ =~= msg_enc(msg@));
            }
            Ok(out)
        }
        Message::ACK(h) => {
            out.push(3u8);
            write_str(&mut out, h.as_str())?;
            proof {
                assert(out@ =~= msg_enc(msg@));
            }
            Ok(out)
        }
        Message::NAK(h, o) => {
            out.push(4u8);
            write_str(&mut out, h.as_str())?;
            write_opt_ranges(&mut out, o)?;
            proof {
                assert(out@ =~= msg_enc(msg@));
            }
            Ok(out)
        }
        Message::ReqReceive(c, h, p, m_) => {
            out.push(5u8);
            write_be64(&mut out, *c);
            write_str(&mut out, h.as_str())?;
            write_str(&mut out, p.as_str())?;
            write_opt_u32(&mut out, m_);
            proof {
                assert(out@ =~= msg_enc(msg@));
            }
            Ok(out)
        }
        Message::ReqTransmit(c, p) => {
            out.push(6u8);
            write_be64(&mut out, *c);
            write_str(&mut out, p.as_str())?;
            proof {
                assert(out@ =~= msg_enc(msg@));
            }
            Ok(out)
        }
        Message::SuccessReceive(c) => {
            out.push(7u8);
            write_be64(&mut out, *c);
            proof {
                assert(out@ =~= msg_enc(msg@));
            }
            Ok(out)
        }
        Message::SuccessTransmit(c, h, n, m_) => {
            out.push(8u8);
            write_be64(&mut out, *c);
            write_str(&mut out, h.as_str())?;
            write_be32(&mut out, *n);
            write_opt_u32(&mut out, m_);
            proof {
                assert(out@ =~= msg_enc(msg@));
            }
            Ok(out)
        }
        Message::Failure(c, r_) => {
            out.push(9u8);
            write_be64(&mut out, *c);
            write_str(&mut out, r_.as_str())?;
            proof {
                assert(out@ =~= msg_enc(msg@));
            }
            Ok(out)
        }
    }
}

/// The 32-bit value of four big-endian bytes.
pub open spec fn combine32(a: u8, b: u8, c: u8, d: u8) -> u32 {
    ((a as u32) << 24) | ((b as u32) << 16) | ((c as u32) << 8) | (d as u32)
}

/// The 64-bit value of eight big-endian bytes.
pub open spec fn combine64(a: u8, b: u8, c: u8, d: u8, e: u8, f: u8, g: u8, h: u8) -> u64 {
    ((a as u64) << 56) | ((b as u64) << 48) | ((c as u64) << 40) | ((d as u64) << 32) | ((
    e as u64) << 24) | ((f as u64) << 16) | ((g as u64) << 8) | (h as u64)
}

/// Takes one byte off the front of the input.
pub open spec fn take_u8(b: Seq<u8>) -> Option<(u8, Seq<u8>)> {
    if b.len() >= 1 {
        Some((b[0], b.skip(1)))
    } else {
        None
    }
}

/// Takes a big-endian 32-bit value off the front of the input.
pub open spec fn take_be32(b: Seq<u8>) -> Option<(u32, Seq<u8>)> {
    if b.len() >= 4 {
        Some((combine32(b[0], b[1], b[2], b[3]), b.skip(4)))
    } else {
        None
    }
}

/// Takes a big-endian 64-bit value off the front of the input.
pub open spec fn take_be64(b: Seq<u8>) -> Option<(u64, Seq<u8>)> {
    if b.len() >= 8 {
        Some((combine64(b[0], b[1], b[2], b[3], b[4], b[5], b[6], b[7]), b.skip(8)))
    } else {
        None
    }
}

/// Takes a length-prefixed byte field off the front of the input.
pub open spec fn take_bytes(b: Seq<u8>) -> Option<(Seq<u8>, Seq<u8>)> {
    match take_be32(b) {
        Some((n, rest)) => if n <= rest.len() {
            Some((rest.take(n as int), rest.skip(n as int)))
        } else {
            None
        },
        None => None,
    }
}

/// Takes a length-prefixed UTF-8 string field off the front of the input.
pub open spec fn take_str(b: Seq<u8>) -> Option<(Seq<char>, Seq<u8>)> {
    match take_bytes(b) {
        Some((bs, rest)) => if valid_utf8(bs) {
            Some((decode_utf8(bs), rest))
        } else {
            None
        },
        None => None,
    }
}

/// Takes an optional 32-bit field off the front of the input.
pub open spec fn take_opt_u32(b: Seq<u8>) -> Option<(Option<u32>, Seq<u8>)> {
    match take_u8(b) {
        Some((t, rest)) => if t == 0 {
            Some((None, rest))
        } else if t == 1 {
            match take_be32(rest) {
                Some((v, rest2)) => Some((Some(v), rest2)),
                None => None,
            }
        } else {
            None
        },
        None => None,
    }
}

/// Takes `n` index range pairs off the front of the input.
pub open spec fn take_pairs(b: Seq<u8>, n: int) -> Option<(Seq<(u32, u32)>, Seq<u8>)>
    decreases n,
{
    if n <= 0 {
        Some((Seq::empty(), b))
    } else {
        match take_be32(b) {
            Some((x, r1)) => match take_be32(r1) {
                Some((y, r2)) => match take_pairs(r2, n - 1) {
                    Some((ps, r3)) => Some((seq![(x, y)] + ps, r3)),
                    None => None,
                },
                None => None,
            },
            None => None,
        }
    }
}

/// Takes an optional range list off the front of the input.
pub open spec fn take_opt_ranges(b: Seq<u8>) -> Option<(Option<Seq<(u32, u32)>>, Seq<u8>)> {
    match take_u8(b) {
        Some((t, rest)) => if t == 0 {
            Some((None, rest))
        } else if t == 1 {
            match take_be32(rest) {
                Some((n, r1)) => match take_pairs(r1, n as int) {
                    Some((ps, r2)) => Some((Some(ps), r2)),
                    None => None,
                },
                None => None,
            }
        } else {
            None
        },
        None => None,
    }
}

/// The message a byte sequence decodes to, if it is a well-formed envelope
/// that is consumed exactly.
pub open spec fn parse_msg(b: Seq<u8>) -> Option<MessageView> {
    match take_u8(b) {
        None => None,
        Some((tag, r)) => if tag == 0 {
            match take_str(r) {
                Some((h, r1)) => if r1.len() == 0 {
                    Some(MessageView::Sync(h))
                } else {
                    None
                },
                None => None,
            }
        } else if tag == 1 {
            match take_str(r) {
                Some((h, r1)) => match take_be32(r1) {
                    Some((n, r2)) => if r2.len() == 0 {
                        Some(MessageView::Metadata(h, n))
                    } else {
                        None
                    },
                    None => None,
                },
                None => None,
            }
        } else if tag == 2 {
            match take_str(r) {
                Some((h, r1)) => match take_be32(r1) {
                    Some((i, r2)) => match take_bytes(r2) {
                        Some((d, r3)) => if r3.len() == 0 && d.len() <= CHUNK_SIZE {
                            Some(MessageView::ReceiveChunk(h, i, d))
                        } else {
                            None
                        },
                        None => None,
                    },
                    None => None,
                },
                None => None,
            }
        } else if tag == 3 {
            match take_str(r) {
                Some((h, r1)) => if r1.len() == 0 {
                    Some(MessageView::ACK(h))
                } else {
                    None
                },
                None => None,
            }
        } else if tag == 4 {
            match take_str(r) {
                Some((h, r1)) => match take_opt_ranges(r1) {
                    Some((o, r2)) => if r2.len() == 0 {
                        Some(MessageView::NAK(h, o))
                    } else {
                        None
                    },
                    None => None,
                },
                None => None,
            }
        } else if tag == 5 {
            match take_be64(r) {
                Some((c, r1)) => match take_str(r1) {
                    Some((h, r2)) => match take_str(r2) {
                        Some((p, r3)) => match take_opt_u32(r3) {
                            Some((m_, r4)) => if r4.len() == 0 {
                                Some(MessageView::ReqReceive(c, h, p, m_))
                            } else {
                                None
                            },
                            None => None,
                        },
                        None => None,
                    },
                    None => None,
                },
                None => None,
            }
        } else if tag == 6 {
            match take_be64(r) {
                Some((c, r1)) => match take_str(r1) {
                    Some((p, r2)) => if r2.len() == 0 {
                        Some(MessageView::ReqTransmit(c, p))
                    } else {
                        None
                    },
                    None => None,
                },
                None => None,
            }
        } else if tag == 7 {
            match take_be64(r) {
                Some((c, r1)) => if r1.len() == 0 {
                    Some(MessageView::SuccessReceive(c))
                } else {
                    None
                },
                None => None,
            }
        } else if tag == 8 {
            match take_be64(r) {
                Some((c, r1)) => match take_str(r1) {
                    Some((h, r2)) => match take_be32(r2) {
                        Some((n, r3)) => match take_opt_u32(r3) {
                            Some((m_, r4)) => if r4.len() == 0 {
                                Some(MessageView::SuccessTransmit(c, h, n, m_))
                            } else {
                                None
                            },
                            None => None,
                        },
                        None => None,
                    },
                    None => None,
                },
                None => None,
            }
        } else if tag == 9 {
            match take_be64(r) {
                Some((c, r1)) => match take_str(r1) {
                    Some((e, r2)) => if r2.len() == 0 {
                        Some(MessageView::Failure(c, e))
                    } else {
                        None
                    },
                    None => None,
                },
                None => None,
            }
        } else {
            None
        },
    }
}

/// Relies on `String::from_utf8`: it succeeds exactly on valid UTF-8 input
/// and returns the string those bytes encode.
#[verifier::external_body]
fn string_from_utf8(v: Vec<u8>) -> (r: Option<String>)
    ensures
        r is Some <==> valid_utf8(v@),
        r matches Some(s) ==> s@ == decode_utf8(v@),
{
    match String::from_utf8(v) {
        Ok(s) => Some(s),
        Err(_) => None,
    }
}

fn read_u8(b: &[u8], pos: usize) -> (r: Option<(u8, usize)>)
    requires
        pos <= b@.len(),
    ensures
        match r {
            Some((v, p2)) => pos < p2 <= b@.len() && take_u8(b@.skip(pos as int)) == Some(
                (v, b@.skip(p2 as int)),
            ),
            None => take_u8(b@.skip(pos as int)) is None,
        },
{
    if b.len() - pos >= 1 {
        proof {
            assert(b@.skip(pos as int)[0] == b@[pos as int]);
            assert(b@.skip(pos as int).skip(1) =~= b@.skip(pos as int + 1));
        }
        Some((b[pos], pos + 1))
    } else {
        None
    }
}

fn read_be32(b: &[u8], pos: usize) -> (r: Option<(u32, usize)>)
    requires
        pos <= b@.len(),
    ensures
        match r {
            Some((v, p2)) => pos < p2 <= b@.len() && take_be32(b@.skip(pos as int)) == Some(
                (v, b@.skip(p2 as int)),
            ),
            None => take_be32(b@.skip(pos as int)) is None,
        },
{
    if b.len() - pos >= 4 {
        let v = ((b[pos] as u32) << 24) | ((b[pos + 1] as u32) << 16) | ((b[pos + 2] as u32) << 8)
            | (b[pos + 3] as u32);
        proof {
            let s = b@.skip(pos as int);
            assert(s[0] == b@[pos as int]);
            assert(s[1] == b@[pos as int + 1]);
            assert(s[2] == b@[pos as int + 2]);
            assert(s[3] == b@[pos as int + 3]);
            assert(s.skip(4) =~= b@.skip(pos as int + 4));
        }
        Some((v, pos + 4))
    } else {
        None
    }
}

fn read_be64(b: &[u8], pos: usize) -> (r: Option<(u64, usize)>)
    requires
        pos <= b@.len(),
    ensures
        match r {
            Some((v, p2)) => pos < p2 <= b@.len() && take_be64(b@.skip(pos as int)) == Some(
                (v, b@.skip(p2 as int)),
            ),
            None => take_be64(b@.skip(pos as int)) is None,
        },
{
    if b.len() - pos >= 8 {
        let v = ((b[pos] as u64) << 56) | ((b[pos + 1] as u64) << 48) | ((b[pos + 2] as u64) << 40)
            | ((b[pos + 3] as u64) << 32) | ((b[pos + 4] as u64) << 24) | ((b[pos + 5] as u64)
            << 16) | ((b[pos + 6] as u64) << 8) | (b[pos + 7] as u64);
        proof {
            let s = b@.skip(pos as int);
            assert(s[0] == b@[pos as int]);
            assert(s[1] == b@[pos as int + 1]);
            assert(s[2] == b@[pos as int + 2]);
            assert(s[3] == b@[pos as int + 3]);
            assert(s[4] == b@[pos as int + 4]);
            assert(s[5] == b@[pos as int + 5]);
            assert(s[6] == b@[pos as int + 6]);
            assert(s[7] == b@[pos as int + 7]);
            assert(s.skip(8) =~= b@.skip(pos as int + 8));
        }
        Some((v, pos + 8))
    } else {
        None
    }
}

fn read_bytes(b: &[u8], pos: usize) -> (r: Option<(Vec<u8>, usize)>)
    requires
        pos <= b@.len(),
    ensures
        match r {
            Some((v, p2)) => pos < p2 <= b@.len() && take_bytes(b@.skip(pos as int)) == Some(
                (v@, b@.skip(p2 as int)),
            ),
            None => take_bytes(b@.skip(pos as int)) is None,
        },
{
    match read_be32(b, pos) {
        Some((n, p1)) => {
            if (n as usize) <= b.len() - p1 {
                let out = vstd::slice::slice_to_vec(
                    vstd::slice::slice_subrange(b, p1, p1 + n as usize),
                );
                proof {
                    let s1 = b@.skip(p1 as int);
                    assert(s1.take(n as int) =~= b@.subrange(p1 as int, p1 as int + n as int));
                    assert(s1.skip(n as int) =~= b@.skip(p1 as int + n as int));
                }
                Some((out, p1 + n as usize))
            } else {
                None
            }
        }
        None => None,
    }
}

fn read_str(b: &[u8], pos: usize) -> (r: Option<(String, usize)>)
    requires
        pos <= b@.len(),
    ensures
        match r {
            Some((s, p2)) => pos < p2 <= b@.len() && take_str(b@.skip(pos as int)) == Some(
                (s@, b@.skip(p2 as int)),
            ) && str_wf(s@),
            None => take_str(b@.skip(pos as int)) is None,
        },
{
    match read_bytes(b, pos) {
        Some((bs, p1)) => {
            let ghost bytes = bs@;
            match string_from_utf8(bs) {
                Some(s) => {
                    proof {
                        decode_utf8_encode_utf8(bytes);
                    }
                    Some((s, p1))
                }
                None => None,
            }
        }
        None => None,
    }
}

fn read_opt_u32(b: &[u8], pos: usize) -> (r: Option<(Option<u32>, usize)>)
    requires
        pos <= b@.len(),
    ensures
        match r {
            Some((o, p2)) => pos < p2 <= b@.len() && take_opt_u32(b@.skip(pos as int)) == Some(
                (o, b@.skip(p2 as int)),
            ),
            None => take_opt_u32(b@.skip(pos as int)) is None,
        },
{
    match read_u8(b, pos) {
        Some((t, p1)) => {
            if t == 0 {
                Some((None, p1))
            } else if t == 1 {
                match read_be32(b, p1) {
                    Some((v, p2)) => Some((Some(v), p2)),
                    None => None,
                }
            } else {
                None
            }
        }
        None => None,
    }
}

fn read_pairs(b: &[u8], pos: usize, n: u32) -> (r: Option<(Vec<(u32, u32)>, usize)>)
    requires
        pos <= b@.len(),
    ensures
        match r {
            Some((ps, p2)) => pos <= p2 <= b@.len() && take_pairs(b@.skip(pos as int), n as int)
                == Some((ps@, b@.skip(p2 as int))) && ps@.len() == n,
            None => take_pairs(b@.skip(pos as int), n as int) is None,
        },
{
    let mut acc: Vec<(u32, u32)> = Vec::new();
    let mut cur: usize = pos;
    let mut k: u32 = 0;
    while k < n
        invariant
            pos <= cur <= b@.len(),
            k <= n,
            acc@.len() == k,
            match take_pairs(b@.skip(cur as int), n as int - k as int) {
                Some((ps, rest)) => take_pairs(b@.skip(pos as int), n as int) == Some(
                    (acc@ + ps, rest),
                ),
                None => take_pairs(b@.skip(pos as int), n as int) is None,
            },
        decreases n - k,
    {
        match read_be32(b, cur) {
            Some((x, p1)) => {
                match read_be32(b, p1) {
                    Some((y, p2)) => {
                        let ghost old_acc = acc@;
                        acc.push((x, y));
                        proof {
                            let tp = take_pairs(b@.skip(p2 as int), n as int - k as int - 1);
                            if tp is Some {
                                let ps2 = tp->Some_0.0;
                                assert(old_acc + (seq![(x, y)] + ps2) =~= acc@ + ps2);
                            }
                        }
                        cur = p2;
                    }
                    None => {
                        return None;
                    }
                }
            }
            None => {
                return None;
            }
        }
        k += 1;
    }
    proof {
        assert(take_pairs(b@.skip(cur as int), 0) == Some(
            (Seq::<(u32, u32)>::empty(), b@.skip(cur as int)),
        ));
        assert(acc@ + Seq::<(u32, u32)>::empty() =~= acc@);
    }
    Some((acc, cur))
}

fn read_opt_ranges(b: &[u8], pos: usize) -> (r: Option<(Option<Vec<(u32, u32)>>, usize)>)
    requires
        pos <= b@.len(),
    ensures
        match r {
            Some((o, p2)) => pos <= p2 <= b@.len() && take_opt_ranges(b@.skip(pos as int)) == Some(
                (
                    match o {
                        Some(ps) => Some(ps@),
                        None => None,
                    },
                    b@.skip(p2 as int),
                ),
            ) && (o matches Some(ps) ==> ps@.len() <= u32::MAX),
            None => take_opt_ranges(b@.skip(pos as int)) is None,
        },
{
    match read_u8(b, pos) {
        Some((t, p1)) => {
            if t == 0 {
                Some((None, p1))
            } else if t == 1 {
                match read_be32(b, p1) {
                    Some((n, p2)) => {
                        match read_pairs(b, p2, n) {
                            Some((ps, p3)) => Some((Some(ps), p3)),
                            None => None,
                        }
                    }
                    None => None,
                }
            } else {
                None
            }
        }
        None => None,
    }
}

/// Decodes wire bytes into a message; fails exactly when the bytes are not
/// the precise envelope of one message.
#[verifier::rlimit(100)]
pub fn decode_message(b: &[u8]) -> (r: Result<Message, ProtocolError>)
    ensures
        match parse_msg(b@) {
            Some(mv) => r matches Ok(m) && m@ == mv && msg_wf(mv),
            None => r matches Err(e) && e is Decode,
        },
{
    proof {
        assert(b@.skip(0) =~= b@);
    }
    let (tag, p0) = match read_u8(b, 0) {
        Some(x) => x,
        None => {
            return Err(ProtocolError::Decode);
        }
    };
    if tag == 0 {
        if let Some((h, p1)) = read_str(b, p0) {
            if p1 == b.len() {
                return Ok(Message::Sync(h));
            }
        }
        Err(ProtocolError::Decode)
    } else if tag == 1 {
        if let Some((h, p1)) = read_str(b, p0) {
            if let Some((n, p2)) = read_be32(b, p1) {
                if p2 == b.len() {
                    return Ok(Message::Metadata(h, n));
                }
            }
        }
        Err(ProtocolError::Decode)
    } else if tag == 2 {
        if let Some((h, p1)) = read_str(b, p0) {
            if let Some((i, p2)) = read_be32(b, p1) {
                if let Some((d, p3)) = read_bytes(b, p2) {
                    if p3 == b.len() && d.len() <= CHUNK_SIZE {
                        return Ok(Message::ReceiveChunk(h, i, d));
                    }
                }
            }
        }
        Err(ProtocolError::Decode)
    } else if tag == 3 {
        if let Some((h, p1)) = read_str(b, p0) {
            if p1 == b.len() {
                return Ok(Message::ACK(h));
            }
        }
        Err(ProtocolError::Decode)
    } else if tag == 4 {
        if let Some((h, p1)) = read_str(b, p0) {
            if let Some((o, p2)) = read_opt_ranges(b, p1) {
                if p2 == b.len() {
                    return Ok(Message::NAK(h, o));
                }
            }
        }
        Err(ProtocolError::Decode)
    } else if tag == 5 {
        if let Some((c, p1)) = read_be64(b, p0) {
            if let Some((h, p2)) = read_str(b, p1) {
                if let Some((p, p3)) = read_str(b, p2) {
                    if let Some((m_, p4)) = read_opt_u32(b, p3) {
                        if p4 == b.len() {
                            return Ok(Message::ReqReceive(c, h, p, m_));
                        }
                    }
                }
            }
        }
        Err(ProtocolError::Decode)
    } else if tag == 6 {
        if let Some((c, p1)) = read_be64(b, p0) {
            if let Some((p, p2)) = read_str(b, p1) {
                if p2 == b.len() {
                    return Ok(Message::ReqTransmit(c, p));
                }
            }
        }
        Err(ProtocolError::Decode)
    } else if tag == 7 {
        if let Some((c, p1)) = read_be64(b, p0) {
            if p1 == b.len() {
                return Ok(Message::SuccessReceive(c));
            }
        }
        Err(ProtocolError::Decode)
    } else if tag == 8 {
        if let Some((c, p1)) = read_be64(b, p0) {
            if let Some((h, p2)) = read_str(b, p1) {
                if let Some((n, p3)) = read_be32(b, p2) {
                    if let Some((m_, p4)) = read_opt_u32(b, p3) {
                        if p4 == b.len() {
                            return Ok(Message::SuccessTransmit(c, h, n, m_));
                        }
                    }
                }
            }
        }
        Err(ProtocolError::Decode)
    } else if tag == 9 {
        if let Some((c, p1)) = read_be64(b, p0) {
            if let Some((e, p2)) = read_str(b, p1) {
                if p2 == b.len() {
                    return Ok(Message::Failure(c, e));
                }
            }
        }
        Err(ProtocolError::Decode)
    } else {
        Err(ProtocolError::Decode)
    }
}

proof fn lemma_take_u8_enc(v: u8, rest: Seq<u8>)
    ensures
        take_u8(seq![v] + rest) == Some((v, rest)),
{
    let b = seq![v] + rest;
    assert(b[0] == v);
    assert(b.skip(1) =~= rest);
}

proof fn lemma_take_be32_enc(v: u32, rest: Seq<u8>)
    ensures
        take_be32(be32(v) + rest) == Some((v, rest)),
{
    let b = be32(v) + rest;
    assert(b[0] == ((v >> 24) & 0xff) as u8);
    assert(b[1] == ((v >> 16) & 0xff) as u8);
    assert(b[2] == ((v >> 8) & 0xff) as u8);
    assert(b[3] == (v & 0xff) as u8);
    assert((((((v >> 24) & 0xff) as u8) as u32) << 24) | (((((v >> 16) & 0xff) as u8) as u32)
        << 16) | (((((v >> 8) & 0xff) as u8) as u32) << 8) | (((v & 0xff) as u8) as u32) == v)
        by (bit_vector);
    assert(combine32(b[0], b[1], b[2], b[3]) == v);
    assert(b.skip(4) =~= rest);
}

proof fn lemma_take_be64_enc(v: u64, rest: Seq<u8>)
    ensures
        take_be64(be64(v) + rest) == Some((v, rest)),
{
    let b = be64(v) + rest;
    assert(b[0] == ((v >> 56) & 0xff) as u8);
    assert(b[1] == ((v >> 48) & 0xff) as u8);
    assert(b[2] == ((v >> 40) & 0xff) as u8);
    assert(b[3] == ((v >> 32) & 0xff) as u8);
    assert(b[4] == ((v >> 24) & 0xff) as u8);
    assert(b[5] == ((v >> 16) & 0xff) as u8);
    assert(b[6] == ((v >> 8) & 0xff) as u8);
    assert(b[7] == (v & 0xff) as u8);
    assert((((((v >> 56) & 0xff) as u8) as u64) << 56) | (((((v >> 48) & 0xff) as u8) as u64)
        << 48) | (((((v >> 40) & 0xff) as u8) as u64) << 40) | (((((v >> 32) & 0xff) as u8) as u64)
        << 32) | (((((v >> 24) & 0xff) as u8) as u64) << 24) | (((((v >> 16) & 0xff) as u8) as u64)
        << 16) | (((((v >> 8) & 0xff) as u8) as u64) << 8) | (((v & 0xff) as u8) as u64) == v)
        by (bit_vector);
    assert(combine64(b[0], b[1], b[2], b[3], b[4], b[5], b[6], b[7]) == v);
    assert(b.skip(8) =~= rest);
}

proof fn lemma_take_bytes_enc(d: Seq<u8>, rest: Seq<u8>)
    requires
        d.len() <= u32::MAX,
    ensures
        take_bytes(enc_bytes(d) + rest) == Some((d, rest)),
{
    let n = d.len() as u32;
    assert(enc_bytes(d) + rest =~= be32(n) + (d + rest));
    lemma_take_be32_enc(n, d + rest);
    assert(n as int == d.len());
    assert((d + rest).take(d.len() as int) =~= d);
    assert((d + rest).skip(d.len() as int) =~= rest);
}

proof fn lemma_take_str_enc(s: Seq<char>, rest: Seq<u8>)
    requires
        str_wf(s),
    ensures
        take_str(enc_str(s) + rest) == Some((s, rest)),
{
    lemma_take_bytes_enc(encode_utf8(s), rest);
    encode_utf8_valid_utf8(s);
    encode_utf8_decode_utf8(s);
}

proof fn lemma_take_opt_u32_enc(o: Option<u32>, rest: Seq<u8>)
    ensures
        take_opt_u32(enc_opt_u32(o) + rest) == Some((o, rest)),
{
    match o {
        None => {
            let b = seq![0u8] + rest;
            assert(b[0] == 0);
            assert(b.skip(1) =~= rest);
        }
        Some(v) => {
            let b = enc_opt_u32(o) + rest;
            assert(b[0] == 1);
            assert(b.skip(1) =~= be32(v) + rest);
            lemma_take_be32_enc(v, rest);
        }
    }
}

proof fn lemma_take_pairs_enc(rs: Seq<(u32, u32)>, rest: Seq<u8>)
    ensures
        take_pairs(enc_pairs(rs) + rest, rs.len() as int) == Some((rs, rest)),
    decreases rs.len(),
{
    if rs.len() == 0 {
        assert(enc_pairs(rs) + rest =~= rest);
    } else {
        let t = rs.drop_first();
        lemma_take_pairs_enc(t, rest);
        let b = enc_pairs(rs) + rest;
        assert(b =~= be32(rs[0].0) + (be32(rs[0].1) + (enc_pairs(t) + rest)));
        lemma_take_be32_enc(rs[0].0, be32(rs[0].1) + (enc_pairs(t) + rest));
        lemma_take_be32_enc(rs[0].1, enc_pairs(t) + rest);
        assert(seq![(rs[0].0, rs[0].1)] + t =~= rs);
    }
}

proof fn lemma_take_opt_ranges_enc(o: Option<Seq<(u32, u32)>>, rest: Seq<u8>)
    requires
        o matches Some(rs) ==> rs.len() <= u32::MAX,
    ensures
        take_opt_ranges(enc_opt_ranges(o) + rest) == Some((o, rest)),
{
    match o {
        None => {
            let b = seq![0u8] + rest;
            assert(b[0] == 0);
            assert(b.skip(1) =~= rest);
        }
        Some(rs) => {
            let b = enc_opt_ranges(o) + rest;
            assert(b[0] == 1);
            assert(b.skip(1) =~= be32(rs.len() as u32) + (enc_pairs(rs) + rest));
            lemma_take_be32_enc(rs.len() as u32, enc_pairs(rs) + rest);
            lemma_take_pairs_enc(rs, rest);
            assert(rs.len() as u32 as int == rs.len());
        }
    }
}

/// The codec is lossless: decoding the wire bytes of any well-formed
/// message yields that message back exactly.
#[verifier::rlimit(100)]
pub proof fn lemma_codec_round_trip(m: MessageView)
    requires
        msg_wf(m),
    ensures
        parse_msg(msg_enc(m)) == Some(m),
{
    let e = Seq::<u8>::empty();
    let b = msg_enc(m);
    match m {
        MessageView::Sync(h) => {
            let r1 = enc_str(h) + e;
            assert(b =~= seq![0u8] + r1);
            lemma_take_u8_enc(0u8, r1);
            lemma_take_str_enc(h, e);
            assert(enc_str(h) + e =~= enc_str(h) + e);
        }
        MessageView::Metadata(h, n) => {
            let r2 = be32(n) + e;
            let r1 = enc_str(h) + r2;
            assert(b =~= seq![1u8] + r1);
            lemma_take_u8_enc(1u8, r1);
            lemma_take_str_enc(h, r2);
            lemma_take_be32_enc(n, e);
        }
        MessageView::ReceiveChunk(h, i, d) => {
            let r3 = enc_bytes(d) + e;
            let r2 = be32(i) + r3;
            let r1 = enc_str(h) + r2;
            assert(b =~= seq![2u8] + r1);
            lemma_take_u8_enc(2u8, r1);
            lemma_take_str_enc(h, r2);
            lemma_take_be32_enc(i, r3);
            lemma_take_bytes_enc(d, e);
        }
        MessageView::ACK(h) => {
            let r1 = enc_str(h) + e;
            assert(b =~= seq![3u8] + r1);
            lemma_take_u8_enc(3u8, r1);
            lemma_take_str_enc(h, e);
        }
        MessageView::NAK(h, o) => {
            let r2 = enc_opt_ranges(o) + e;
            let r1 = enc_str(h) + r2;
            assert(b =~= seq![4u8] + r1);
            lemma_take_u8_enc(4u8, r1);
            lemma_take_str_enc(h, r2);
            lemma_take_opt_ranges_enc(o, e);
        }
        MessageView::ReqReceive(c, h, p, m_) => {
            let r4 = enc_opt_u32(m_) + e;
            let r3 = enc_str(p) + r4;
            let r2 = enc_str(h) + r3;
            let r1 = be64(c) + r2;
            assert(b =~= seq![5u8] + r1);
            lemma_take_u8_enc(5u8, r1);
            lemma_take_be64_enc(c, r2);
            lemma_take_str_enc(h, r3);
            lemma_take_str_enc(p, r4);
            lemma_take_opt_u32_enc(m_, e);
        }
        MessageView::ReqTransmit(c, p) => {
            let r2 = enc_str(p) + e;
            let r1 = be64(c) + r2;
            assert(b =~= seq![6u8] + r1);
            lemma_take_u8_enc(6u8, r1);
            lemma_take_be64_enc(c, r2);
            lemma_take_str_enc(p, e);
        }
        MessageView::SuccessReceive(c) => {
            let r1 = be64(c) + e;
            assert(b =~= seq![7u8] + r1);
            lemma_take_u8_enc(7u8, r1);
            lemma_take_be64_enc(c, e);
        }
        MessageView::SuccessTransmit(c, h, n, m_) => {
            let r4 = enc_opt_u32(m_) + e;
            let r3 = be32(n) + r4;
            let r2 = enc_str(h) + r3;
            let r1 = be64(c) + r2;
            assert(b =~= seq![8u8] + r1);
            lemma_take_u8_enc(8u8, r1);
            lemma_take_be64_enc(c, r2);
            lemma_take_str_enc(h, r3);
            lemma_take_be32_enc(n, r4);
            lemma_take_opt_u32_enc(m_, e);
        }
        MessageView::Failure(c, reason) => {
            let r2 = enc_str(reason) + e;
            let r1 = be64(c) + r2;
            assert(b =~= seq![9u8] + r1);
            lemma_take_u8_enc(9u8, r1);
            lemma_take_be64_enc(c, r2);
            lemma_take_str_enc(reason, e);
        }
    }
}

} // verus!
