//! The command that travels from the board to the host, and its framing.
//!
//! A frame is the four bytes of [`HEADER`], one byte that gives the length of
//! the payload, then the payload: the command in bincode's standard
//! configuration (little endian, variable-length integers).

use vstd::prelude::*;

verus! {

/// Bytes that open every frame on the serial link.
pub const HEADER: [u8; 4] = [0xFF, 0xFF, 0xFD, 0];

/// Number of analog channels (potentiometers) on the board.
pub const N_ADCS: usize = 5;

/// Size of the scratch buffer the board encodes a command into.
pub const ENCODE_BUFFER_LEN: usize = 32;

/// A request to set the volume of channel `select` to `volume`.
#[derive(Debug, PartialEq, Eq, Structural, Copy, Clone)]
pub struct Cmd {
    pub select: u8,
    pub volume: u16,
}

impl Cmd {
    /// Builds a command for channel `select` at `volume`.
    pub fn new(select: u8, volume: u16) -> (c: Cmd)
        ensures
            c == (Cmd { select, volume }),
    {
        Cmd { select, volume }
    }
}

/// The header as a sequence of bytes.
pub open spec fn header_bytes() -> Seq<u8> {
    seq![0xFFu8, 0xFFu8, 0xFDu8, 0u8]
}

/// A `u16` as a variable-length integer: one byte up to 250, otherwise the
/// marker 251 followed by the value in two little-endian bytes.
pub open spec fn varint_u16(v: u16) -> Seq<u8> {
    if v <= 250 {
        seq![v as u8]
    } else {
        seq![251u8, (v % 256) as u8, (v / 256) as u8]
    }
}

/// The payload of a command: the channel byte, then the volume as a
/// variable-length integer.
pub open spec fn cmd_encoding(c: Cmd) -> Seq<u8> {
    seq![c.select] + varint_u16(c.volume)
}

/// What reading a command from the front of `s` gives: the command and the
/// number of bytes it took, or `None` where `s` does not start with one.
pub open spec fn cmd_decoding(s: Seq<u8>) -> Option<(Cmd, int)> {
    if s.len() < 2 {
        None
    } else if s[1] <= 250 {
        Some((Cmd { select: s[0], volume: s[1] as u16 }, 2))
    } else if s[1] == 251 && s.len() >= 4 {
        Some((Cmd { select: s[0], volume: (s[2] + 256 * s[3]) as u16 }, 4))
    } else {
        None
    }
}

/// The whole frame that carries `c`.
pub open spec fn frame_bytes(c: Cmd) -> Seq<u8> {
    header_bytes() + seq![cmd_encoding(c).len() as u8] + cmd_encoding(c)
}

#[verifier::external_type_specification]
#[verifier::external_body]
pub struct ExEncodeError(bincode::error::EncodeError);

#[verifier::external_type_specification]
#[verifier::external_body]
pub struct ExDecodeError(bincode::error::DecodeError);

/// Calls `bincode::encode_into_slice` on the command's two fields, in the
/// standard configuration. Trusted: it writes `cmd_encoding(cmd)` at the
/// front of `dst`, leaves the rest of `dst` as it was and returns the number
/// of bytes written; it fails exactly when `dst` is too short. Nothing is
/// said of what a failed call left in `dst`.
#[verifier::external_body]
fn bincode_encode_cmd(cmd: Cmd, dst: &mut [u8]) -> (r: Result<usize, bincode::error::EncodeError>)
    ensures
        final(dst)@.len() == old(dst)@.len(),
        r is Ok <==> cmd_encoding(cmd).len() <= old(dst)@.len(),
        r matches Ok(n) ==> n == cmd_encoding(cmd).len() && final(dst)@ == cmd_encoding(cmd)
            + old(dst)@.skip(n as int),
{
    bincode::encode_into_slice((cmd.select, cmd.volume), dst, bincode::config::standard())
}

/// Calls `bincode::decode_from_slice` for a `(u8, u16)` pair in the standard
/// configuration. Trusted: it succeeds exactly when `src` starts with a
/// command, as `cmd_decoding` says, and then returns that command and the
/// number of bytes it took.
#[verifier::external_body]
fn bincode_decode_cmd(src: &[u8]) -> (r: Result<(Cmd, usize), bincode::error::DecodeError>)
    ensures
        r is Ok <==> cmd_decoding(src@) is Some,
        r matches Ok((c, n)) ==> cmd_decoding(src@) == Some((c, n as int)),
{
    match bincode::decode_from_slice::<(u8, u16), _>(src, bincode::config::standard()) {
        Ok(((select, volume), n)) => Ok((Cmd { select, volume }, n)),
        Err(e) => Err(e),
    }
}

/// Builds the frame that carries `cmd`: header, payload length, payload.
pub fn encode_frame(cmd: Cmd) -> (f: Vec<u8>)
    ensures
        f@ == frame_bytes(cmd),
{
    let mut buf = [0u8; ENCODE_BUFFER_LEN];
    let size = match bincode_encode_cmd(cmd, &mut buf) {
        Ok(n) => n,
        Err(_) => {
            proof {
                assert(false);
            }
            0
        },
    };
    let ghost enc = cmd_encoding(cmd);
    assert(buf@.take(size as int) =~= enc);
    let mut out: Vec<u8> = Vec::new();
    out.push(HEADER[0]);
    out.push(HEADER[1]);
    out.push(HEADER[2]);
    out.push(HEADER[3]);
    out.push(size as u8);
    let mut i: usize = 0;
    while i < size
        invariant
            i <= size,
            size == enc.len(),
            size <= 4,
            buf@.len() == ENCODE_BUFFER_LEN,
            buf@.take(size as int) == enc,
            out@ == header_bytes() + seq![size as u8] + enc.take(i as int),
        decreases size - i,
    {
        assert(buf@[i as int] == buf@.take(size as int)[i as int]);
        out.push(buf[i]);
        i = i + 1;
        assert(enc.take(i as int) =~= enc.take(i - 1).push(enc[i - 1]));
    }
    assert(enc.take(size as int) =~= enc);
    out
}

/// What the front of a received byte stream holds.
#[derive(Debug, PartialEq, Eq, Structural, Copy, Clone)]
pub enum FrameDecode {
    /// Too few bytes yet to tell: wait for more.
    Incomplete,
    /// The first `n` bytes are no frame, or a frame whose payload is no
    /// command: drop them.
    Skip(usize),
    /// A frame that carries the command, `n` bytes long.
    Frame(Cmd, usize),
}

/// How the front of the received bytes `s` is read: a frame needs the
/// header, a length byte `n` and `n` payload bytes that hold exactly one
/// command.
pub open spec fn frame_decoding(s: Seq<u8>) -> FrameDecode {
    if s.len() < 5 {
        FrameDecode::Incomplete
    } else if s.take(4) != header_bytes() {
        FrameDecode::Skip(1)
    } else if s.len() < 5 + s[4] {
        FrameDecode::Incomplete
    } else {
        let n = s[4] as int;
        match cmd_decoding(s.subrange(5, 5 + n)) {
            Some((c, used)) => if used == n {
                FrameDecode::Frame(c, (5 + n) as usize)
            } else {
                FrameDecode::Skip((5 + n) as usize)
            },
            None => FrameDecode::Skip((5 + n) as usize),
        }
    }
}

/// Reads the front of the received bytes `buf`.
pub fn decode_frame(buf: &[u8]) -> (r: FrameDecode)
    ensures
        r == frame_decoding(buf@),
{
    if buf.len() < 5 {
        return FrameDecode::Incomplete;
    }
    if buf[0] != HEADER[0] || buf[1] != HEADER[1] || buf[2] != HEADER[2] || buf[3] != HEADER[3] {
        proof {
            if buf@.take(4) == header_bytes() {
                assert(buf@.take(4)[0] == buf@[0]);
                assert(buf@.take(4)[1] == buf@[1]);
                assert(buf@.take(4)[2] == buf@[2]);
                assert(buf@.take(4)[3] == buf@[3]);
            }
        }
        return FrameDecode::Skip(1);
    }
    assert(buf@.take(4) =~= header_bytes());
    let n = buf[4] as usize;
    if buf.len() < 5 + n {
        return FrameDecode::Incomplete;
    }
    let payload = &buf[5..5 + n];
    match bincode_decode_cmd(payload) {
        Ok((c, used)) => {
            if used == n {
                FrameDecode::Frame(c, 5 + n)
            } else {
                FrameDecode::Skip(5 + n)
            }
        },
        Err(_) => FrameDecode::Skip(5 + n),
    }
}

/// A frame read back from the front of a stream gives the command that was
/// framed, and its length, whatever follows it.
pub proof fn law_frame_roundtrip(c: Cmd, rest: Seq<u8>)
    ensures
        frame_decoding(frame_bytes(c) + rest) == FrameDecode::Frame(
            c,
            frame_bytes(c).len() as usize,
        ),
{
    let s = frame_bytes(c) + rest;
    let enc = cmd_encoding(c);
    assert(s.take(4) =~= header_bytes());
    assert(s[4] == enc.len() as u8);
    assert(s.subrange(5, 5 + enc.len() as int) =~= enc);
}

/// The layout of a frame: the header bytes, the number of bytes that
/// follow, the channel, then the volume either as one byte (up to 250) or
/// as the marker 251 and the volume's low and high bytes.
pub proof fn law_frame_layout(c: Cmd)
    ensures
        frame_bytes(c).take(4) == seq![0xFFu8, 0xFFu8, 0xFDu8, 0u8],
        frame_bytes(c)[4] == frame_bytes(c).len() - 5,
        frame_bytes(c)[5] == c.select,
        c.volume <= 250 ==> frame_bytes(c).len() == 7 && frame_bytes(c)[6] == c.volume,
        c.volume > 250 ==> frame_bytes(c).len() == 9 && frame_bytes(c)[6] == 251
            && frame_bytes(c)[7] + 256 * frame_bytes(c)[8] == c.volume,
        HEADER@ == seq![0xFFu8, 0xFFu8, 0xFDu8, 0u8],
{
    assert(frame_bytes(c).take(4) =~= seq![0xFFu8, 0xFFu8, 0xFDu8, 0u8]);
    assert(HEADER@ =~= seq![0xFFu8, 0xFFu8, 0xFDu8, 0u8]);
}

/// Every proper prefix of a frame is incomplete: a frame that arrives in
/// pieces is waited for, never dropped.
pub proof fn law_frame_prefix_incomplete(c: Cmd, k: int)
    requires
        0 <= k < frame_bytes(c).len(),
    ensures
        frame_decoding(frame_bytes(c).take(k)) == FrameDecode::Incomplete,
{
    let f = frame_bytes(c);
    let s = f.take(k);
    if k >= 5 {
        assert(s.take(4) =~= header_bytes());
        assert(s[4] == f[4]);
    }
}

/// A reading that drops or takes bytes never changes as more bytes arrive:
/// it depends only on the bytes it drops or takes.
pub proof fn law_frame_decision_is_final(s: Seq<u8>, more: Seq<u8>)
    ensures
        frame_decoding(s) matches FrameDecode::Skip(n) ==> frame_decoding(s + more)
            == FrameDecode::Skip(n),
        frame_decoding(s) matches FrameDecode::Frame(c, n) ==> frame_decoding(s + more)
            == FrameDecode::Frame(c, n),
{
    let t = s + more;
    if s.len() >= 5 {
        assert(t.take(4) =~= s.take(4));
        assert(t[4] == s[4]);
        if s.len() >= 5 + s[4] {
            assert(t.subrange(5, 5 + s[4]) =~= s.subrange(5, 5 + s[4]));
        }
    }
}

/// Waiting never lasts: once 260 bytes (a header, a length byte and the
/// longest payload) are at hand, they are dropped or read.
pub proof fn law_frame_decided_within_bound(s: Seq<u8>)
    requires
        s.len() >= 260,
    ensures
        frame_decoding(s) != FrameDecode::Incomplete,
{
}

/// Every reading that drops or takes bytes takes at least one, and no more
/// than there are.
pub proof fn law_frame_progress(s: Seq<u8>)
    ensures
        frame_decoding(s) matches FrameDecode::Skip(n) ==> 0 < n <= s.len(),
        frame_decoding(s) matches FrameDecode::Frame(_, n) ==> 0 < n <= s.len(),
{
}

} // verus!
