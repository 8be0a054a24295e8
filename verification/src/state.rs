//! The frame of a saved state: a magic number and a format version before the
//! encoded body.

use vstd::prelude::*;

use crate::error::{Reason, SlamError};

verus! {

/// Format version of saved states.
pub const STATE_VERSION: u32 = 1;

/// Length of the frame before the body: eight bytes of magic, four of version.
pub const HEADER_LEN: usize = 12;

/// The magic number: `OLIVSLAM`.
pub open spec fn magic() -> Seq<u8> {
    seq![0x4fu8, 0x4c, 0x49, 0x56, 0x53, 0x4c, 0x41, 0x4d]
}

/// The value of four bytes, least significant first.
pub open spec fn little_endian(bytes: Seq<u8>) -> int {
    bytes[0] + 0x100 * bytes[1] + 0x1_0000 * bytes[2] + 0x100_0000 * bytes[3]
}

/// A body with its frame.
pub open spec fn framed(body: Seq<u8>) -> Seq<u8> {
    magic() + seq![1u8, 0, 0, 0] + body
}

/// What a framed body is read as: the body, or what is wrong with its frame.
pub open spec fn unframed(data: Seq<u8>) -> Result<Seq<u8>, SlamError> {
    if data.len() < HEADER_LEN {
        Err(SlamError::Serialization { reason: Reason::TooShort })
    } else if data.take(8) != magic() {
        Err(SlamError::Serialization { reason: Reason::BadMagic })
    } else if little_endian(data.subrange(8, 12)) != STATE_VERSION {
        Err(
            SlamError::Serialization {
                reason: Reason::BadVersion(little_endian(data.subrange(8, 12)) as u32),
            },
        )
    } else {
        Ok(data.skip(HEADER_LEN as int))
    }
}

/// Put the frame before a body.
pub fn frame(body: &Vec<u8>) -> (r: Vec<u8>)
    ensures
        r@ == framed(body@),
{
    let mut out: Vec<u8> = vec![0x4f, 0x4c, 0x49, 0x56, 0x53, 0x4c, 0x41, 0x4d, 1, 0, 0, 0];
    for i in 0..body.len()
        invariant
            out@ =~= framed(body@.take(i as int)),
    {
        out.push(body[i]);
    }
    proof {
        assert(body@.take(body@.len() as int) =~= body@);
    }
    out
}

/// Take the frame off a body.
///
/// [`SlamError::Serialization`] if the data is too short for a frame, does not
/// begin with the magic number or has another version.
pub fn unframe(data: &Vec<u8>) -> (r: Result<Vec<u8>, SlamError>)
    ensures
        match unframed(data@) {
            Ok(body) => r matches Ok(v) && v@ == body,
            Err(e) => r == Err::<Vec<u8>, SlamError>(e),
        },
{
    if data.len() < HEADER_LEN {
        return Err(SlamError::Serialization { reason: Reason::TooShort });
    }
    let genuine = data[0] == 0x4f && data[1] == 0x4c && data[2] == 0x49 && data[3] == 0x56
        && data[4] == 0x53 && data[5] == 0x4c && data[6] == 0x41 && data[7] == 0x4d;
    if !genuine {
        proof {
            let m = magic();
            assert(m[0] == 0x4f && m[1] == 0x4c && m[2] == 0x49 && m[3] == 0x56 && m[4] == 0x53
                && m[5] == 0x4c && m[6] == 0x41 && m[7] == 0x4d);
            let t = data@.take(8);
            assert(t[0] == data@[0] && t[1] == data@[1] && t[2] == data@[2] && t[3] == data@[3]
                && t[4] == data@[4] && t[5] == data@[5] && t[6] == data@[6] && t[7] == data@[7]);
        }
        return Err(SlamError::Serialization { reason: Reason::BadMagic });
    }
    proof {
        assert(data@.take(8) =~= magic());
    }
    let version: u32 = data[8] as u32 + 0x100 * data[9] as u32 + 0x1_0000 * data[10] as u32
        + 0x100_0000 * data[11] as u32;
    if version != STATE_VERSION {
        return Err(SlamError::Serialization { reason: Reason::BadVersion(version) });
    }
    let mut body: Vec<u8> = Vec::new();
    for i in HEADER_LEN..data.len()
        invariant
            body@ =~= data@.subrange(HEADER_LEN as int, i as int),
    {
        body.push(data[i]);
    }
    proof {
        assert(body@ =~= data@.skip(HEADER_LEN as int));
    }
    Ok(body)
}

/// Reading a framed body gives the body back.
pub proof fn law_unframing_undoes_framing(body: Seq<u8>)
    ensures
        unframed(framed(body)) == Ok::<Seq<u8>, SlamError>(body),
{
    let data = framed(body);
    assert(data.take(8) =~= magic());
    assert(data.subrange(8, 12) =~= seq![1u8, 0, 0, 0]);
    assert(data.skip(HEADER_LEN as int) =~= body);
}

/// Only framed bodies are accepted: what is read without error is exactly what
/// framing its body gives.
pub proof fn law_only_framed_bodies_are_accepted(data: Seq<u8>)
    requires
        unframed(data) is Ok,
    ensures
        data == framed(unframed(data)->Ok_0),
{
    let body = data.skip(HEADER_LEN as int);
    let version = data.subrange(8, 12);
    assert(version =~= seq![1u8, 0, 0, 0]);
    assert forall|i: int| 0 <= i < data.len() implies data[i] == framed(body)[i] by {
        if i < 8 {
            assert(data.take(8)[i] == magic()[i]);
        } else if i < 12 {
            assert(version[i - 8] == data[i]);
        }
    }
    assert(data =~= framed(body));
}

} // verus!
