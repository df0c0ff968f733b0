//! Position-synchronization wire protocol: each update is a single
//! 4-byte binary message — the slide index in bytes 0–1 and the step
//! index in bytes 2–3, both as unsigned 16-bit big-endian integers.
//! Values exceeding 65535 saturate rather than wrap.

use vstd::prelude::*;

verus! {

/// Saturation of a position component into the wire's 16-bit range.
pub open spec fn spec_saturate_u16(x: int) -> u16 {
    if x > 65535 {
        65535u16
    } else {
        x as u16
    }
}

/// The four bytes of one position update.
pub open spec fn spec_frame(slide: u16, step: u16) -> Seq<u8> {
    seq![
        (slide / 256) as u8,
        (slide % 256) as u8,
        (step / 256) as u8,
        (step % 256) as u8,
    ]
}

/// What decoding a received binary message yields; a message of any
/// other length is ignored, not an error.
pub open spec fn spec_decode(bytes: Seq<u8>) -> Option<(u16, u16)> {
    if bytes.len() == 4 {
        Some(((bytes[0] * 256 + bytes[1]) as u16, (bytes[2] * 256 + bytes[3]) as u16))
    } else {
        None
    }
}

/// Encodes the current position for the wire, saturating each
/// component at 65535.
pub fn encode_position(slide: usize, step: usize) -> (r: Vec<u8>)
    ensures
        r@ == spec_frame(
            spec_saturate_u16(slide as int),
            spec_saturate_u16(step as int),
        ),
{
    let s: u16 = if slide > 65535 { 65535 } else { slide as u16 };
    let t: u16 = if step > 65535 { 65535 } else { step as u16 };
    let mut v: Vec<u8> = Vec::new();
    v.push((s / 256) as u8);
    v.push((s % 256) as u8);
    v.push((t / 256) as u8);
    v.push((t % 256) as u8);
    proof {
        assert(v@ =~= spec_frame(spec_saturate_u16(slide as int), spec_saturate_u16(step as int)));
    }
    v
}

/// Decodes a received binary message; only messages of exactly four
/// bytes carry a position.
pub fn decode_frame(bytes: &Vec<u8>) -> (r: Option<(u16, u16)>)
    ensures
        r == spec_decode(bytes@),
{
    if bytes.len() == 4 {
        let slide = (bytes[0] as u16) * 256 + (bytes[1] as u16);
        let step = (bytes[2] as u16) * 256 + (bytes[3] as u16);
        Some((slide, step))
    } else {
        None
    }
}

/// Law: decoding a frame returns exactly the position it was encoded
/// from.
pub proof fn lemma_frame_round_trip(slide: u16, step: u16)
    ensures
        spec_decode(spec_frame(slide, step)) == Some((slide, step)),
{
    assert(slide / 256 * 256 + slide % 256 == slide) by (nonlinear_arith);
    assert(step / 256 * 256 + step % 256 == step) by (nonlinear_arith);
    assert(spec_frame(slide, step).len() == 4);
}

} // verus!
