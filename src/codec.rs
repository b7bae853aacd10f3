use vstd::prelude::*;

verus! {

/// Largest payload that one frame may carry.
pub const MAX_FRAME_LEN: usize = 16777216;

/// The four bytes of `n`, least significant first.
pub open spec fn u32_le(n: u32) -> Seq<u8> {
    seq![
        (n % 0x100) as u8,
        (n / 0x100 % 0x100) as u8,
        (n / 0x10000 % 0x100) as u8,
        (n / 0x1000000 % 0x100) as u8,
    ]
}

/// The number whose bytes, least significant first, are the first four of `s`.
pub open spec fn le_u32(s: Seq<u8>) -> u32
    recommends
        s.len() >= 4,
{
    (s[0] + s[1] * 0x100 + s[2] * 0x10000 + s[3] * 0x1000000) as u32
}

/// The eight bytes of `n`, least significant first.
pub open spec fn u64_le(n: u64) -> Seq<u8> {
    u32_le((n % 0x100000000) as u32) + u32_le((n / 0x100000000) as u32)
}

/// The number whose bytes, least significant first, are the first eight of `s`.
pub open spec fn le_u64(s: Seq<u8>) -> u64
    recommends
        s.len() >= 8,
{
    (le_u32(s) + le_u32(s.subrange(4, 8)) * 0x100000000) as u64
}

/// The sixteen bytes of `n`, least significant first.
pub open spec fn u128_le(n: u128) -> Seq<u8> {
    u64_le((n % 0x10000000000000000) as u64) + u64_le((n / 0x10000000000000000) as u64)
}

/// The number whose bytes, least significant first, are the first sixteen of `s`.
pub open spec fn le_u128(s: Seq<u8>) -> u128
    recommends
        s.len() >= 16,
{
    (le_u64(s) + le_u64(s.subrange(8, 16)) * 0x10000000000000000) as u128
}

/// Reading back the bytes of a 32-bit number gives the number.
pub proof fn lemma_u32_round_trip(n: u32)
    ensures
        le_u32(u32_le(n)) == n,
{
    let b = u32_le(n);
    assert(b[0] + b[1] * 0x100 + b[2] * 0x10000 + b[3] * 0x1000000 == n);
}

/// Reading back the bytes of a 64-bit number gives the number.
pub proof fn lemma_u64_round_trip(n: u64)
    ensures
        le_u64(u64_le(n)) == n,
{
    let lo = (n % 0x100000000) as u32;
    let hi = (n / 0x100000000) as u32;
    lemma_u32_round_trip(lo);
    lemma_u32_round_trip(hi);
    assert(u64_le(n).subrange(4, 8) =~= u32_le(hi));
    assert(le_u32(u64_le(n)) == le_u32(u32_le(lo)));
}

proof fn lemma_le_u64_prefix(s: Seq<u8>)
    requires
        s.len() >= 8,
    ensures
        le_u64(s) == le_u64(s.subrange(0, 8)),
{
    assert(s.subrange(0, 8).subrange(4, 8) =~= s.subrange(4, 8));
}

/// Reading back the bytes of a 128-bit number gives the number.
pub proof fn lemma_u128_round_trip(n: u128)
    ensures
        le_u128(u128_le(n)) == n,
{
    let lo = (n % 0x10000000000000000) as u64;
    let hi = (n / 0x10000000000000000) as u64;
    let s = u128_le(n);
    lemma_u64_round_trip(lo);
    lemma_u64_round_trip(hi);
    assert(s.subrange(0, 8) =~= u64_le(lo));
    assert(s.subrange(8, 16) =~= u64_le(hi));
    lemma_le_u64_prefix(s);
    vstd::arithmetic::div_mod::lemma_fundamental_div_mod(n as int, 0x10000000000000000);
    assert(le_u64(s) + le_u64(s.subrange(8, 16)) * 0x10000000000000000 == n);
}

fn push_u32_le(out: &mut Vec<u8>, n: u32)
    ensures
        final(out)@ == old(out)@ + u32_le(n),
{
    out.push((n % 0x100) as u8);
    out.push((n / 0x100 % 0x100) as u8);
    out.push((n / 0x10000 % 0x100) as u8);
    out.push((n / 0x1000000 % 0x100) as u8);
    assert(out@ =~= old(out)@ + u32_le(n));
}

fn push_u64_le(out: &mut Vec<u8>, n: u64)
    ensures
        final(out)@ == old(out)@ + u64_le(n),
{
    push_u32_le(out, (n % 0x100000000) as u32);
    push_u32_le(out, (n / 0x100000000) as u32);
    assert(final(out)@ =~= old(out)@ + u64_le(n));
}

pub(crate) fn read_u32_le(b: &Vec<u8>, at: usize) -> (r: u32)
    requires
        at + 4 <= b@.len(),
    ensures
        r == le_u32(b@.subrange(at as int, at + 4)),
{
    let _len = b.len();
    let x0 = b[at] as u32;
    let x1 = b[at + 1] as u32;
    let x2 = b[at + 2] as u32;
    let x3 = b[at + 3] as u32;
    x0 + x1 * 0x100 + x2 * 0x10000 + x3 * 0x1000000
}

fn read_u64_le(b: &Vec<u8>, at: usize) -> (r: u64)
    requires
        at + 8 <= b@.len(),
    ensures
        r == le_u64(b@.subrange(at as int, at + 8)),
{
    let _len = b.len();
    let lo = read_u32_le(b, at) as u64;
    let hi = read_u32_le(b, at + 4) as u64;
    assert(b@.subrange(at as int, at + 8).subrange(4, 8) =~= b@.subrange(at + 4, at + 8));
    assert(b@.subrange(at as int, at + 8).subrange(0, 4) =~= b@.subrange(at as int, at + 4));
    lo + hi * 0x100000000
}

/// A frame: the payload's length in four bytes, then the payload.
pub open spec fn framed(payload: Seq<u8>) -> Seq<u8> {
    u32_le(payload.len() as u32) + payload
}

/// Frames a payload for the wire.
pub fn encode_frame(payload: &Vec<u8>) -> (r: Vec<u8>)
    requires
        payload@.len() <= MAX_FRAME_LEN,
    ensures
        r@ == framed(payload@),
{
    let mut out: Vec<u8> = Vec::new();
    push_u32_le(&mut out, payload.len() as u32);
    let mut i: usize = 0;
    while i < payload.len()
        invariant
            i <= payload@.len(),
            out@ == u32_le(payload@.len() as u32) + payload@.subrange(0, i as int),
        decreases payload@.len() - i,
    {
        out.push(payload[i]);
        i = i + 1;
        assert(out@ =~= u32_le(payload@.len() as u32) + payload@.subrange(0, i as int));
    }
    assert(payload@.subrange(0, i as int) =~= payload@);
    out
}

/// The first message on every connection: who is at the other end.
#[derive(Debug)]
pub enum Preamble {
    /// A replica, with the address it listens on, in text form.
    Server { id: u64, addr: Vec<u8> },
    /// A client session.
    Client { id: u128 },
}

/// A preamble as plain values.
pub enum PreambleView {
    Server { id: u64, addr: Seq<u8> },
    Client { id: u128 },
}

impl Preamble {
    pub open spec fn view(&self) -> PreambleView {
        match self {
            Preamble::Server { id, addr } => PreambleView::Server { id: *id, addr: addr@ },
            Preamble::Client { id } => PreambleView::Client { id: *id },
        }
    }
}

/// Tag of the server preamble.
pub const SERVER_TAG: u8 = 0;

/// Tag of the client preamble.
pub const CLIENT_TAG: u8 = 1;

/// The payload that carries a preamble: a tag byte, then the server id and its
/// address, or the sixteen bytes of the client id.
pub open spec fn preamble_bytes(p: PreambleView) -> Seq<u8> {
    match p {
        PreambleView::Server { id, addr } => seq![SERVER_TAG] + u64_le(id) + addr,
        PreambleView::Client { id } => seq![CLIENT_TAG] + u128_le(id),
    }
}

/// The preamble that a payload carries, if it carries one.
pub open spec fn parse_preamble(b: Seq<u8>) -> Option<PreambleView> {
    if b.len() >= 9 && b[0] == SERVER_TAG {
        Some(PreambleView::Server { id: le_u64(b.subrange(1, 9)), addr: b.subrange(9, b.len() as int) })
    } else if b.len() == 17 && b[0] == CLIENT_TAG {
        Some(PreambleView::Client { id: le_u128(b.subrange(1, 17)) })
    } else {
        None
    }
}

/// Encodes a preamble as a payload (not yet framed).
pub fn encode_preamble(p: &Preamble) -> (r: Vec<u8>)
    ensures
        r@ == preamble_bytes(p@),
{
    let mut out: Vec<u8> = Vec::new();
    match p {
        Preamble::Server { id, addr } => {
            out.push(SERVER_TAG);
            push_u64_le(&mut out, *id);
            let mut i: usize = 0;
            while i < addr.len()
                invariant
                    i <= addr@.len(),
                    out@ == seq![SERVER_TAG] + u64_le(*id) + addr@.subrange(0, i as int),
                decreases addr@.len() - i,
            {
                out.push(addr[i]);
                i = i + 1;
                assert(out@ =~= seq![SERVER_TAG] + u64_le(*id) + addr@.subrange(0, i as int));
            }
            assert(addr@.subrange(0, i as int) =~= addr@);
        },
        Preamble::Client { id } => {
            out.push(CLIENT_TAG);
            push_u64_le(&mut out, (*id % 0x10000000000000000) as u64);
            push_u64_le(&mut out, (*id / 0x10000000000000000) as u64);
            assert(out@ =~= seq![CLIENT_TAG] + u128_le(*id));
        },
    }
    out
}

/// Decodes the preamble that a payload carries; `None` where the payload is
/// no preamble.
pub fn decode_preamble(b: &Vec<u8>) -> (r: Option<Preamble>)
    ensures
        r is None <==> parse_preamble(b@) is None,
        r matches Some(p) ==> parse_preamble(b@) == Some(p@),
{
    if b.len() >= 9 && b[0] == SERVER_TAG {
        let id = read_u64_le(b, 1);
        let mut addr: Vec<u8> = Vec::new();
        let mut i: usize = 9;
        while i < b.len()
            invariant
                9 <= i <= b@.len(),
                addr@ == b@.subrange(9, i as int),
            decreases b@.len() - i,
        {
            addr.push(b[i]);
            i = i + 1;
            assert(addr@ =~= b@.subrange(9, i as int));
        }
        Some(Preamble::Server { id, addr })
    } else if b.len() == 17 && b[0] == CLIENT_TAG {
        let lo = read_u64_le(b, 1);
        let hi = read_u64_le(b, 9);
        let id = (lo as u128) + (hi as u128) * 0x10000000000000000;
        assert(b@.subrange(1, 17).subrange(0, 8) =~= b@.subrange(1, 9));
        assert(b@.subrange(1, 17).subrange(8, 16) =~= b@.subrange(9, 17));
        Some(Preamble::Client { id })
    } else {
        None
    }
}

proof fn lemma_server_preamble_round_trip(id: u64, addr: Seq<u8>)
    ensures
        parse_preamble(preamble_bytes(PreambleView::Server { id, addr })) == Some(
            PreambleView::Server { id, addr },
        ),
{
    let b = preamble_bytes(PreambleView::Server { id, addr });
    let e = u64_le(id);
    assert(b.subrange(1, 9) =~= e);
    assert(b.subrange(9, b.len() as int) =~= addr);
    lemma_u64_round_trip(id);
}

proof fn lemma_client_preamble_round_trip(id: u128)
    ensures
        parse_preamble(preamble_bytes(PreambleView::Client { id })) == Some(
            PreambleView::Client { id },
        ),
{
    let b = preamble_bytes(PreambleView::Client { id });
    let e = u128_le(id);
    assert(b.subrange(1, 17) =~= e);
    lemma_u128_round_trip(id);
}

/// Decoding the encoding of a preamble gives the preamble back.
pub proof fn lemma_preamble_round_trip(p: PreambleView)
    ensures
        parse_preamble(preamble_bytes(p)) == Some(p),
{
    match p {
        PreambleView::Server { id, addr } => lemma_server_preamble_round_trip(id, addr),
        PreambleView::Client { id } => lemma_client_preamble_round_trip(id),
    }
}

/// The complete frames at the start of `buf`, in order, and the bytes left
/// after them; `None` where a frame announces more than `MAX_FRAME_LEN` bytes.
pub open spec fn split_frames(buf: Seq<u8>) -> Option<(Seq<Seq<u8>>, Seq<u8>)>
    decreases buf.len(),
{
    if buf.len() < 4 {
        Some((Seq::empty(), buf))
    } else {
        let n = le_u32(buf) as int;
        if n > MAX_FRAME_LEN {
            None
        } else if buf.len() < 4 + n {
            Some((Seq::empty(), buf))
        } else {
            match split_frames(buf.subrange(4 + n, buf.len() as int)) {
                None => None,
                Some((fs, rest)) => Some((seq![buf.subrange(4, 4 + n)] + fs, rest)),
            }
        }
    }
}

/// `split` with the frames `fs` put in front.
pub open spec fn frames_after(fs: Seq<Seq<u8>>, split: Option<(Seq<Seq<u8>>, Seq<u8>)>) -> Option<
    (Seq<Seq<u8>>, Seq<u8>),
> {
    match split {
        None => None,
        Some((more, rest)) => Some((fs + more, rest)),
    }
}

fn copy_range(b: &Vec<u8>, from: usize, to: usize) -> (r: Vec<u8>)
    requires
        from <= to <= b@.len(),
    ensures
        r@ == b@.subrange(from as int, to as int),
{
    let mut out: Vec<u8> = Vec::new();
    let mut i: usize = from;
    while i < to
        invariant
            from <= i <= to,
            to <= b@.len(),
            out@ == b@.subrange(from as int, i as int),
        decreases to - i,
    {
        out.push(b[i]);
        i = i + 1;
        assert(out@ =~= b@.subrange(from as int, i as int));
    }
    out
}

/// Splits `buf` into its complete frames and the bytes left after them; `None`
/// where a frame is too long.
pub fn decode_frames(buf: &Vec<u8>) -> (r: Option<(Vec<Vec<u8>>, Vec<u8>)>)
    ensures
        r is None <==> split_frames(buf@) is None,
        r matches Some((fs, rest)) ==> split_frames(buf@) == Some(
            (fs@.map_values(|f: Vec<u8>| f@), rest@),
        ),
{
    let mut frames: Vec<Vec<u8>> = Vec::new();
    let mut pos: usize = 0;
    let len = buf.len();
    proof {
        assert(buf@.subrange(0, len as int) =~= buf@);
        assert(frames@.map_values(|f: Vec<u8>| f@) =~= Seq::<Seq<u8>>::empty());
    }
    loop
        invariant
            pos <= len,
            len == buf@.len(),
            split_frames(buf@) == frames_after(
                frames@.map_values(|f: Vec<u8>| f@),
                split_frames(buf@.subrange(pos as int, len as int)),
            ),
        decreases len - pos,
    {
        let ghost rest = buf@.subrange(pos as int, len as int);
        if len - pos < 4 {
            let tail = copy_range(buf, pos, len);
            proof {
                assert(frames@.map_values(|f: Vec<u8>| f@) + Seq::<Seq<u8>>::empty() =~= frames@.map_values(|f: Vec<u8>| f@));
            }
            return Some((frames, tail));
        }
        let n = read_u32_le(buf, pos) as usize;
        proof {
            assert(rest.subrange(0, 4) =~= buf@.subrange(pos as int, pos + 4));
            assert(le_u32(rest) == le_u32(buf@.subrange(pos as int, pos + 4)));
        }
        if n > MAX_FRAME_LEN {
            return None;
        }
        if len - pos - 4 < n {
            let tail = copy_range(buf, pos, len);
            proof {
                assert(frames@.map_values(|f: Vec<u8>| f@) + Seq::<Seq<u8>>::empty() =~= frames@.map_values(|f: Vec<u8>| f@));
            }
            return Some((frames, tail));
        }
        let f = copy_range(buf, pos + 4, pos + 4 + n);
        let ghost before = frames@.map_values(|f: Vec<u8>| f@);
        frames.push(f);
        proof {
            assert(rest.subrange(4, 4 + n as int) =~= f@);
            assert(rest.subrange(4 + n as int, rest.len() as int) =~= buf@.subrange(pos + 4 + n, len as int));
            assert(frames@.map_values(|f: Vec<u8>| f@) =~= before.push(f@));
            let later = split_frames(buf@.subrange(pos + 4 + n, len as int));
            if let Some((fs, r)) = later {
                assert(before + (seq![f@] + fs) =~= before.push(f@) + fs);
            }
        }
        pos = pos + 4 + n;
    }
}

} // verus!
