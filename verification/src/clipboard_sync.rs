//! Decisions of the clipboard sync daemon: public keys in hex, the peer
//! list, the allow list, when to push, the chunks of a transfer, and
//! handshake message framing.
use vstd::prelude::*;
use vstd::string::StringSliceAdditionalSpecFns;
use vstd::utf8::encode_utf8;
use crate::clipboard::{is_text, is_text_mime};

verus! {


/// Length of an X25519 key in bytes.
pub const KEY_LEN: usize = 32;

/// Largest handshake message that is framed.
pub const MAX_HANDSHAKE_MSG: usize = 1024;

/// Value of a hexadecimal digit (either case), if `b` is one.
pub open spec fn hex_digit(b: u8) -> Option<u8> {
    if 0x30 <= b <= 0x39 {
        Some((b - 0x30) as u8)
    } else if 0x61 <= b <= 0x66 {
        Some((b - 0x61 + 10) as u8)
    } else if 0x41 <= b <= 0x46 {
        Some((b - 0x41 + 10) as u8)
    } else {
        None
    }
}

/// The byte that two hexadecimal digits encode, high digit first.
pub open spec fn hex_pair(b0: u8, b1: u8) -> Option<u8> {
    match (hex_digit(b0), hex_digit(b1)) {
        (Some(h), Some(l)) => Some((h * 16 + l) as u8),
        _ => None,
    }
}

/// The byte encoded by the `i`-th pair of characters.
pub open spec fn key_pair(hex: Seq<u8>, i: int) -> Option<u8> {
    hex_pair(hex[2 * i], hex[2 * i + 1])
}

/// The first `n` pairs all decode.
pub open spec fn pairs_decode(hex: Seq<u8>, n: int) -> bool {
    forall|j: int| 0 <= j < n ==> (#[trigger] key_pair(hex, j)) is Some
}

/// The key that a string of 64 hex digits encodes, if it is one.
pub open spec fn public_key_of(hex: Seq<u8>) -> Option<Seq<u8>> {
    if hex.len() == 2 * KEY_LEN && pairs_decode(hex, KEY_LEN as int) {
        Some(Seq::new(KEY_LEN as nat, |i: int| key_pair(hex, i)->Some_0))
    } else {
        None
    }
}

/// Value of one hexadecimal digit (either case).
fn hex_value(b: u8) -> (r: Option<u8>)
    ensures
        r == hex_digit(b),
{
    if 0x30 <= b && b <= 0x39 {
        Some(b - 0x30)
    } else if 0x61 <= b && b <= 0x66 {
        Some(b - 0x61 + 10)
    } else if 0x41 <= b && b <= 0x46 {
        Some(b - 0x41 + 10)
    } else {
        None
    }
}

/// Parse a 64-character hex X25519 public key; anything else (another
/// length, a character that is not a hex digit) gives `None`.
pub fn parse_public_key(hex: &str) -> (r: Option<[u8; 32]>)
    ensures
        match r {
            Some(key) => public_key_of(hex.spec_bytes()) == Some(key@),
            None => public_key_of(hex.spec_bytes()) is None,
        },
{
    let bytes: &[u8] = hex.as_bytes();
    if bytes.len() != KEY_LEN * 2 {
        return None;
    }
    let mut out: [u8; KEY_LEN] = [0u8; KEY_LEN];
    let mut i: usize = 0;
    while i < KEY_LEN
        invariant
            bytes@ == hex.spec_bytes(),
            bytes@.len() == 2 * KEY_LEN,
            0 <= i <= KEY_LEN,
            pairs_decode(bytes@, i as int),
            forall|j: int| 0 <= j < i ==> out@[j] == key_pair(bytes@, j)->Some_0,
        decreases KEY_LEN - i,
    {
        match (hex_value(bytes[2 * i]), hex_value(bytes[2 * i + 1])) {
            (Some(h), Some(l)) => {
                out[i] = h * 16 + l;
            },
            _ => {
                assert(key_pair(bytes@, i as int) is None);
                return None;
            },
        }
        i = i + 1;
    }
    assert(out@ =~= Seq::new(KEY_LEN as nat, |k: int| key_pair(bytes@, k)->Some_0));
    Some(out)
}

/// Lowercase hexadecimal digit for `d < 16`.
pub open spec fn hex_lower(d: u8) -> char {
    if d < 10 {
        (0x30 + d) as char
    } else {
        (0x57 + d) as char
    }
}

/// Lowercase hex encoding, two characters per byte.
pub open spec fn spec_to_hex(b: Seq<u8>) -> Seq<char>
    decreases b.len(),
{
    if b.len() == 0 {
        Seq::empty()
    } else {
        spec_to_hex(b.drop_last()) + seq![hex_lower(b.last() / 16), hex_lower(b.last() % 16)]
    }
}

/// `String::push`: appends one character to the string.
#[verifier::external_body]
fn push_char(s: &mut String, c: char)
    ensures
        final(s)@ == old(s)@.push(c),
{
    s.push(c)
}

fn hex_digit_char(d: u8) -> (c: char)
    requires
        d < 16,
    ensures
        c == hex_lower(d),
{
    if d < 10 {
        (0x30u8 + d) as char
    } else {
        (0x57u8 + d) as char
    }
}

/// Lowercase hex encoding of `bytes`.
pub fn to_hex(bytes: &[u8]) -> (s: String)
    ensures
        s@ == spec_to_hex(bytes@),
{
    let mut s: String = String::new();
    let mut i: usize = 0;
    while i < bytes.len()
        invariant
            0 <= i <= bytes@.len(),
            s@ == spec_to_hex(bytes@.subrange(0, i as int)),
        decreases bytes@.len() - i,
    {
        let b: u8 = bytes[i];
        push_char(&mut s, hex_digit_char(b / 16));
        push_char(&mut s, hex_digit_char(b % 16));
        assert(bytes@.subrange(0, i + 1).drop_last() =~= bytes@.subrange(0, i as int));
        i = i + 1;
    }
    assert(bytes@.subrange(0, bytes@.len() as int) =~= bytes@);
    s
}

/// The allow list holds the hex encoding of the peer's static key.
pub open spec fn allows(allow: Seq<String>, remote_static: Seq<u8>) -> bool {
    exists|i: int| 0 <= i < allow.len() && (#[trigger] allow[i])@ == spec_to_hex(remote_static)
}

/// Whitelist check of a responder: is the initiator's static key, in
/// lowercase hex, on the allow list?
pub fn is_allowed(allow: &[String], remote_static: &[u8]) -> (b: bool)
    ensures
        b == allows(allow@, remote_static@),
{
    let remote: String = to_hex(remote_static);
    let mut i: usize = 0;
    while i < allow.len()
        invariant
            0 <= i <= allow@.len(),
            remote@ == spec_to_hex(remote_static@),
            forall|j: int| 0 <= j < i ==> (#[trigger] allow@[j])@ != remote@,
        decreases allow@.len() - i,
    {
        if allow[i] == remote {
            return true;
        }
        i = i + 1;
    }
    false
}

/// A private key file must hold exactly one key.
pub fn private_key_from_bytes(bytes: &[u8]) -> (r: Option<[u8; 32]>)
    ensures
        match r {
            Some(key) => bytes@.len() == KEY_LEN && key@ == bytes@,
            None => bytes@.len() != KEY_LEN,
        },
{
    if bytes.len() != KEY_LEN {
        return None;
    }
    let mut key: [u8; KEY_LEN] = [0u8; KEY_LEN];
    let mut i: usize = 0;
    while i < KEY_LEN
        invariant
            bytes@.len() == KEY_LEN,
            0 <= i <= KEY_LEN,
            forall|j: int| 0 <= j < i ==> key@[j] == bytes@[j],
        decreases KEY_LEN - i,
    {
        key[i] = bytes[i];
        i = i + 1;
    }
    assert(key@ =~= bytes@);
    Some(key)
}

/// `rs` cuts `0..len` into consecutive pieces of `chunk` bytes, the last
/// one possibly shorter (none when `len` is 0).
pub open spec fn chunked(rs: Seq<(usize, usize)>, len: int, chunk: int) -> bool {
    &&& (len == 0) == (rs.len() == 0)
    &&& rs.len() > 0 ==> rs[0].0 == 0 && rs.last().1 == len
    &&& forall|j: int| 0 <= j < rs.len() - 1 ==> (#[trigger] rs[j]).1 == rs[j + 1].0
    &&& forall|j: int| 0 <= j < rs.len() - 1 ==> (#[trigger] rs[j]).1 - rs[j].0 == chunk
    &&& rs.len() > 0 ==> 0 < rs.last().1 - rs.last().0 <= chunk
}

/// The byte ranges of the chunks of a transfer of `payload_len` bytes, in
/// order; chunk `i` of the transfer carries sequence number `i`.
pub fn transfer_chunks(payload_len: usize, chunk_len: usize) -> (rs: Vec<(usize, usize)>)
    requires
        chunk_len > 0,
    ensures
        chunked(rs@, payload_len as int, chunk_len as int),
{
    let mut rs: Vec<(usize, usize)> = Vec::new();
    let mut start: usize = 0;
    while start < payload_len
        invariant
            chunk_len > 0,
            start <= payload_len,
            (start == 0) == (rs@.len() == 0),
            rs@.len() > 0 ==> rs@[0].0 == 0 && rs@.last().1 == start,
            forall|j: int| 0 <= j < rs@.len() - 1 ==> (#[trigger] rs@[j]).1 == rs@[j + 1].0,
            forall|j: int| 0 <= j < rs@.len() - 1 ==> (#[trigger] rs@[j]).1 - rs@[j].0 == chunk_len,
            rs@.len() > 0 ==> 0 < rs@.last().1 - rs@.last().0 <= chunk_len,
            rs@.len() > 0 && start < payload_len ==> rs@.last().1 - rs@.last().0 == chunk_len,
        decreases payload_len - start,
    {
        let end: usize = if payload_len - start > chunk_len {
            start + chunk_len
        } else {
            payload_len
        };
        let ghost old_rs = rs@;
        rs.push((start, end));
        assert forall|j: int| 0 <= j < rs@.len() - 1 implies (#[trigger] rs@[j]).1 == rs@[j + 1].0 by {
            if j < old_rs.len() - 1 {
                assert(rs@[j] == old_rs[j] && rs@[j + 1] == old_rs[j + 1]);
            }
        }
        assert forall|j: int| 0 <= j < rs@.len() - 1 implies (#[trigger] rs@[j]).1 - rs@[j].0 == chunk_len by {
            assert(rs@[j] == old_rs[j]);
        }
        start = end;
    }
    rs
}

/// Errors of handshake message framing.
#[derive(Debug, PartialEq, Eq, Structural, Clone, Copy)]
pub enum FrameError {
    /// A received frame announces a length of 0 or above the maximum.
    InvalidFrameLength(usize),
    /// A message to send is empty or above the maximum.
    InvalidMessageLength,
}

/// A frame length is accepted if it is in `1..=MAX_HANDSHAKE_MSG`.
pub open spec fn frame_len_ok(len: int) -> bool {
    1 <= len <= MAX_HANDSHAKE_MSG
}

/// Length of a handshake frame from its 2-byte big-endian prefix.
pub fn frame_len(prefix: [u8; 2]) -> (r: Result<usize, FrameError>)
    ensures
        ({
            let len = prefix@[0] * 256 + prefix@[1];
            if frame_len_ok(len) {
                r == Ok::<usize, FrameError>(len as usize)
            } else {
                r == Err::<usize, FrameError>(FrameError::InvalidFrameLength(len as usize))
            }
        }),
{
    let len: usize = (prefix[0] as usize) * 256 + (prefix[1] as usize);
    if len == 0 || len > MAX_HANDSHAKE_MSG {
        return Err(FrameError::InvalidFrameLength(len));
    }
    Ok(len)
}

/// The 2-byte big-endian length prefix of a handshake message to send.
pub fn frame_prefix(data_len: usize) -> (r: Result<[u8; 2], FrameError>)
    ensures
        match r {
            Ok(p) => frame_len_ok(data_len as int) && p@ == seq![
                (data_len / 256) as u8,
                (data_len % 256) as u8,
            ],
            Err(e) => !frame_len_ok(data_len as int) && e == FrameError::InvalidMessageLength,
        },
{
    if data_len == 0 || data_len > MAX_HANDSHAKE_MSG {
        return Err(FrameError::InvalidMessageLength);
    }
    let p: [u8; 2] = [(data_len / 256) as u8, (data_len % 256) as u8];
    assert(p@ =~= seq![(data_len / 256) as u8, (data_len % 256) as u8]);
    Ok(p)
}


/// Does some MIME type of the list start with `text/plain`?
pub open spec fn has_text_mime(mimes: Seq<String>) -> bool {
    exists|i: int| 0 <= i < mimes.len() && is_text(encode_utf8((#[trigger] mimes[i])@))
}

/// Should a selection change with these MIME types be pushed to peers?
/// Only text selections, and not within the grace window after a write
/// received from a peer (that write surfaces as a change here too).
pub fn wants_push(mimes: &[String], within_grace: bool) -> (b: bool)
    ensures
        b == (has_text_mime(mimes@) && !within_grace),
{
    let mut any_text: bool = false;
    let mut i: usize = 0;
    while i < mimes.len()
        invariant
            0 <= i <= mimes@.len(),
            any_text == exists|j: int| 0 <= j < i && is_text(encode_utf8((#[trigger] mimes@[j])@)),
        decreases mimes@.len() - i,
    {
        if is_text_mime(mimes[i].as_str()) {
            any_text = true;
        }
        i = i + 1;
    }
    if !any_text {
        return false;
    }
    !within_grace
}

/// Network address of a peer.
#[derive(Debug, Clone, Copy, PartialEq, Eq)]
pub enum PeerAddr {
    V4([u8; 4]),
    V6([u8; 16]),
}

/// A configured client, as far as clipboard sync reads it.
pub struct ConfigClient {
    /// clipboard sync enabled for this client
    pub clipboard: bool,
    /// the client's public key in hex
    pub clipboard_key: Option<String>,
    /// the client's addresses
    pub ips: Vec<PeerAddr>,
}

/// A peer we push clipboard changes to.
pub struct ClipboardPeer {
    pub ip: PeerAddr,
    pub port: u16,
    pub public_key: [u8; 32],
}

/// Abstract value of a [`ClipboardPeer`].
pub struct PeerView {
    pub ip: PeerAddr,
    pub port: u16,
    pub public_key: Seq<u8>,
}

impl View for ClipboardPeer {
    type V = PeerView;

    open spec fn view(&self) -> PeerView {
        PeerView { ip: self.ip, port: self.port, public_key: self.public_key@ }
    }
}

/// The key of a client that takes part in clipboard sync: enabled and with
/// a valid key.
pub open spec fn client_key(c: ConfigClient) -> Option<Seq<u8>> {
    if c.clipboard {
        match c.clipboard_key {
            Some(k) => public_key_of(encode_utf8(k@)),
            None => None,
        }
    } else {
        None
    }
}

/// One peer per address of a taking-part client.
pub open spec fn client_peers(c: ConfigClient, port: u16) -> Seq<PeerView> {
    match client_key(c) {
        Some(key) => c.ips@.map_values(|ip: PeerAddr| PeerView { ip, port, public_key: key }),
        None => Seq::empty(),
    }
}

/// The peer list of a client list, in order.
pub open spec fn spec_peers(cs: Seq<ConfigClient>, port: u16) -> Seq<PeerView>
    decreases cs.len(),
{
    if cs.len() == 0 {
        Seq::empty()
    } else {
        spec_peers(cs.drop_last(), port) + client_peers(cs.last(), port)
    }
}

/// Build the peer list from configured clients: only clients with
/// `clipboard = true` and a valid `clipboard_key` are included, once per
/// address.
pub fn peers(clients: &[ConfigClient], port: u16) -> (out: Vec<ClipboardPeer>)
    ensures
        out@.map_values(|p: ClipboardPeer| p@) == spec_peers(clients@, port),
{
    let mut out: Vec<ClipboardPeer> = Vec::new();
    let mut i: usize = 0;
    while i < clients.len()
        invariant
            0 <= i <= clients@.len(),
            out@.map_values(|p: ClipboardPeer| p@) == spec_peers(clients@.subrange(0, i as int), port),
        decreases clients@.len() - i,
    {
        let c: &ConfigClient = &clients[i];
        let ghost before = out@.map_values(|p: ClipboardPeer| p@);
        assert(clients@.subrange(0, i + 1).drop_last() =~= clients@.subrange(0, i as int));
        if c.clipboard {
            match &c.clipboard_key {
                Some(k) => {
                    assert(clients@[i as int].clipboard_key is Some);
                    match parse_public_key(k.as_str()) {
                        Some(public_key) => {
                            let mut j: usize = 0;
                            while j < c.ips.len()
                                invariant
                                    0 <= j <= c.ips@.len(),
                                    client_key(*c) == Some(public_key@),
                                    out@.map_values(|p: ClipboardPeer| p@) == before
                                        + c.ips@.subrange(0, j as int).map_values(
                                        |ip: PeerAddr| PeerView { ip, port, public_key: public_key@ },
                                    ),
                                decreases c.ips@.len() - j,
                            {
                                let ghost prev = out@;
                                let ip: PeerAddr = c.ips[j];
                                out.push(ClipboardPeer { ip, port, public_key });
                                let ghost pv = PeerView { ip, port, public_key: public_key@ };
                                assert(out@.map_values(|p: ClipboardPeer| p@) =~= prev.map_values(
                                    |p: ClipboardPeer| p@,
                                ).push(pv));
                                assert(c.ips@.subrange(0, j + 1) =~= c.ips@.subrange(0, j as int).push(
                                    ip,
                                ));
                                assert(c.ips@.subrange(0, j + 1).map_values(
                                    |ip: PeerAddr| PeerView { ip, port, public_key: public_key@ },
                                ) =~= c.ips@.subrange(0, j as int).map_values(
                                    |ip: PeerAddr| PeerView { ip, port, public_key: public_key@ },
                                ).push(pv));
                                assert(out@.map_values(|p: ClipboardPeer| p@) =~= before
                                    + c.ips@.subrange(0, j + 1).map_values(
                                    |ip: PeerAddr| PeerView { ip, port, public_key: public_key@ },
                                ));
                                j = j + 1;
                            }
                            assert(c.ips@.subrange(0, c.ips@.len() as int) =~= c.ips@);
                        },
                        None => {
                            assert(client_peers(*c, port) =~= Seq::<PeerView>::empty());
                            assert(before + client_peers(*c, port) =~= before);
                        },
                    }
                },
                None => {
                    assert(before + client_peers(*c, port) =~= before);
                },
            }
        } else {
            assert(before + client_peers(*c, port) =~= before);
        }
        i = i + 1;
    }
    assert(clients@.subrange(0, clients@.len() as int) =~= clients@);
    out
}

} // verus!
