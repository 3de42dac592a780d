//! Messages over a pipe: a length in four bytes, the most significant first,
//! and then that many bytes.
use vstd::prelude::*;

verus! {

/// The number that four bytes stand for.
pub open spec fn big_endian(b0: u8, b1: u8, b2: u8, b3: u8) -> nat {
    (b0 as nat) * 16_777_216 + (b1 as nat) * 65_536 + (b2 as nat) * 256 + (b3 as nat)
}

/// The byte of a number that stands for the given power of 256.
pub open spec fn byte_of(n: nat, unit: nat) -> u8 {
    ((n / unit) % 256) as u8
}

/// A message as it goes over the pipe.
pub open spec fn framed(body: Seq<u8>) -> Seq<u8> {
    seq![
        byte_of(body.len(), 16_777_216),
        byte_of(body.len(), 65_536),
        byte_of(body.len(), 256),
        byte_of(body.len(), 1),
    ] + body
}

/// The message at the beginning of what was read, if all of it is there.
pub open spec fn first_message(input: Seq<u8>) -> Option<Seq<u8>> {
    if input.len() < 4 {
        None
    } else {
        let len = big_endian(input[0], input[1], input[2], input[3]);
        if input.len() < 4 + len {
            None
        } else {
            Some(input.subrange(4, 4 + len as int))
        }
    }
}

/// The length that four bytes announce.
pub fn frame_length(b0: u8, b1: u8, b2: u8, b3: u8) -> (r: u32)
    ensures
        r == big_endian(b0, b1, b2, b3),
{
    (b0 as u32) * 16_777_216 + (b1 as u32) * 65_536 + (b2 as u32) * 256 + (b3 as u32)
}

/// Frame a message.
pub fn frame(body: &Vec<u8>) -> (r: Vec<u8>)
    requires
        body@.len() <= u32::MAX,
    ensures
        r@ == framed(body@),
{
    let n: u32 = body.len() as u32;
    let mut out: Vec<u8> = Vec::new();
    assert(n / 16_777_216 < 256);
    out.push((n / 16_777_216) as u8);
    out.push(((n / 65_536) % 256) as u8);
    out.push(((n / 256) % 256) as u8);
    out.push((n % 256) as u8);
    let mut k: usize = 0;
    let ghost head = out@;
    while k < body.len()
        invariant
            0 <= k <= body.len(),
            out@ =~= head + body@.take(k as int),
        decreases body.len() - k,
    {
        out.push(body[k]);
        k = k + 1;
    }
    assert(out@ =~= framed(body@));
    out
}

/// The message at the beginning of what was read. Input that ends before the
/// message does is no message, never a part of one.
pub fn unframe(input: &Vec<u8>) -> (r: Option<Vec<u8>>)
    ensures
        match first_message(input@) {
            Some(body) => r is Some && r.unwrap()@ == body,
            None => r is None,
        },
{
    if input.len() < 4 {
        return None;
    }
    let len: u32 = frame_length(input[0], input[1], input[2], input[3]);
    if (input.len() - 4) as u64 <= len as u64 && (input.len() - 4) as u64 != len as u64 {
        return None;
    }
    let end: usize = 4 + len as usize;
    let mut out: Vec<u8> = Vec::new();
    let mut k: usize = 4;
    while k < end
        invariant
            4 <= k <= end <= input.len(),
            out@ =~= input@.subrange(4, k as int),
        decreases end - k,
    {
        out.push(input[k]);
        k = k + 1;
    }
    Some(out)
}

/// The four bytes of a length stand for it.
proof fn lemma_length(n: nat)
    requires
        n <= u32::MAX,
    ensures
        big_endian(
            byte_of(n, 16_777_216),
            byte_of(n, 65_536),
            byte_of(n, 256),
            byte_of(n, 1),
        ) == n,
{
    let a = n / 256;
    let b = a / 256;
    let c = b / 256;
    assert(n / 65_536 == b);
    assert(n / 16_777_216 == c);
    assert(c < 256);
}

/// What was framed is read back, whatever comes behind it.
pub proof fn a_framed_message_is_read_back(body: Seq<u8>, rest: Seq<u8>)
    requires
        body.len() <= u32::MAX,
    ensures
        first_message(framed(body) + rest) == Some(body),
{
    let n = body.len();
    let input = framed(body) + rest;
    lemma_length(n);
    assert(input[0] == byte_of(n, 16_777_216) && input[1] == byte_of(n, 65_536));
    assert(input[2] == byte_of(n, 256) && input[3] == byte_of(n, 1));
    assert(input.subrange(4, 4 + n as int) =~= body);
}

/// A message of which the end is missing is not read.
pub proof fn a_cut_message_is_not_read(body: Seq<u8>, k: int)
    requires
        body.len() <= u32::MAX,
        0 <= k < framed(body).len(),
    ensures
        first_message(framed(body).take(k)) is None,
{
    let n = body.len();
    let input = framed(body).take(k);
    lemma_length(n);
    if k >= 4 {
        assert(input[0] == byte_of(n, 16_777_216) && input[1] == byte_of(n, 65_536));
        assert(input[2] == byte_of(n, 256) && input[3] == byte_of(n, 1));
    }
}

/// A message goes over the pipe as its length, the most significant byte first, and then
/// its bytes as they are.
pub proof fn the_length_goes_before_the_message(body: Seq<u8>)
    requires
        body.len() <= u32::MAX,
    ensures
        framed(body).len() == 4 + body.len(),
        framed(body).skip(4) == body,
        ((framed(body)[0] as nat * 256 + framed(body)[1]) * 256 + framed(body)[2]) * 256
            + framed(body)[3] == body.len(),
{
    let n = body.len();
    lemma_length(n);
    assert(framed(body).skip(4) =~= body);
    let input = framed(body);
    assert(input[0] == byte_of(n, 16_777_216) && input[1] == byte_of(n, 65_536));
    assert(input[2] == byte_of(n, 256) && input[3] == byte_of(n, 1));
}

} // verus!
