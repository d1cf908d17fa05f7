//! Wire codec: client and server messages as compact, length-implicit binary
//! envelopes.
//!
//! The layout is private to this codec; what matters is that encoding is
//! lossless: decoding an encoded message yields the message back, and a frame
//! that no message encodes to is rejected. Integers travel as eight
//! little-endian bytes, strings as a length followed by one integer per
//! character, positions as their two coordinates (valid only inside the
//! arena), and each message as a numeric tag followed by its fields.

use vstd::prelude::*;

use crate::types::{
    LeaderBoard, MessageFromClient, MessageFromServer, Position, SyncData,
};
use crate::growth::lb_views;

verus! {

/// A frame that no message of the protocol encodes to.
#[derive(Clone, Copy, Debug, PartialEq, Eq, Structural)]
pub struct DecodeError;

/// `n` written as `k` little-endian base-256 digits.
pub open spec fn le_bytes(n: int, k: nat) -> Seq<u8>
    decreases k,
{
    if k == 0 {
        Seq::empty()
    } else {
        seq![(n % 256) as u8] + le_bytes(n / 256, (k - 1) as nat)
    }
}

/// The number the little-endian digits `b` spell.
pub open spec fn from_le(b: Seq<u8>) -> int
    decreases b.len(),
{
    if b.len() == 0 {
        0
    } else {
        b[0] + 256 * from_le(b.drop_first())
    }
}

/// `256^k`.
pub open spec fn pow256(k: nat) -> int
    decreases k,
{
    if k == 0 {
        1
    } else {
        256 * pow256((k - 1) as nat)
    }
}

/// One unsigned integer on the wire.
pub open spec fn enc_u64(v: u64) -> Seq<u8> {
    le_bytes(v as int, 8)
}

proof fn lemma_le_bytes_len(n: int, k: nat)
    ensures
        le_bytes(n, k).len() == k,
    decreases k,
{
    if k > 0 {
        lemma_le_bytes_len(n / 256, (k - 1) as nat);
    }
}

/// Reading back the written digits gives the written number.
proof fn lemma_from_le_bytes(n: int, k: nat)
    requires
        0 <= n < pow256(k),
    ensures
        from_le(le_bytes(n, k)) == n,
    decreases k,
{
    if k > 0 {
        assert(0 <= n / 256 < pow256((k - 1) as nat)) by (nonlinear_arith)
            requires
                0 <= n < 256 * pow256((k - 1) as nat),
        ;
        lemma_from_le_bytes(n / 256, (k - 1) as nat);
        let b = le_bytes(n, k);
        assert(b.drop_first() =~= le_bytes(n / 256, (k - 1) as nat));
        assert(b[0] == (n % 256) as u8);
        assert(n % 256 + 256 * (n / 256) == n) by (nonlinear_arith);
    }
}

proof fn lemma_pow256_8()
    ensures
        pow256(8) == 0x1_0000_0000_0000_0000,
{
    assert(pow256(0) == 1);
    assert(pow256(1) == 256);
    assert(pow256(2) == 0x1_0000);
    assert(pow256(3) == 0x100_0000);
    assert(pow256(4) == 0x1_0000_0000);
    assert(pow256(5) == 0x100_0000_0000);
    assert(pow256(6) == 0x1_0000_0000_0000);
    assert(pow256(7) == 0x100_0000_0000_0000);
}

/// One integer parsed at `p`: its value and the position after it.
pub open spec fn sp_u64(s: Seq<u8>, p: int) -> Option<(u64, int)> {
    if 0 <= p && p + 8 <= s.len() {
        Some((from_le(s.subrange(p, p + 8)) as u64, p + 8))
    } else {
        None
    }
}

/// Append one integer to the output buffer.
fn write_u64(out: &mut Vec<u8>, v: u64)
    ensures
        final(out)@ == old(out)@ + enc_u64(v),
{
    let mut x = v;
    let mut j: usize = 0;
    while j < 8
        invariant
            0 <= j <= 8,
            old(out)@ + le_bytes(v as int, 8) == out@ + le_bytes(x as int, (8 - j) as nat),
        decreases 8 - j,
    {
        let ghost pre = out@;
        let b = (x % 256) as u8;
        out.push(b);
        proof {
            assert(le_bytes(x as int, (8 - j) as nat) == seq![b] + le_bytes(
                x as int / 256,
                (8 - (j + 1)) as nat,
            ));
            assert(pre + le_bytes(x as int, (8 - j) as nat) =~= out@ + le_bytes(
                x as int / 256,
                (8 - (j + 1)) as nat,
            ));
        }
        x = x / 256;
        j = j + 1;
    }
    proof {
        assert(le_bytes(x as int, 0) =~= Seq::<u8>::empty());
        assert(out@ + le_bytes(x as int, 0) =~= out@);
        lemma_le_bytes_len(v as int, 8);
    }
}

/// Read one integer at `p`, exactly as [`sp_u64`] describes.
fn read_u64(bytes: &Vec<u8>, p: usize) -> (r: Option<(u64, usize)>)
    ensures
        match sp_u64(bytes@, p as int) {
            None => r is None,
            Some((v, q)) => r matches Some(t) && t.0 == v && t.1 == q,
        },
{
    let n = bytes.len();
    if n < 8 || p > n - 8 {
        return None;
    }
    let mut acc: u64 = 0;
    let mut j: usize = 8;
    proof {
        lemma_pow256_8();
        assert(bytes@.subrange(p + 8, p + 8) =~= Seq::<u8>::empty());
    }
    while j > 0
        invariant
            0 <= j <= 8,
            n == bytes@.len(),
            p + 8 <= n,
            acc == from_le(bytes@.subrange(p + j, p + 8)),
            acc < pow256((8 - j) as nat),
            pow256(8) == 0x1_0000_0000_0000_0000,
        decreases j,
    {
        let b = bytes[p + j - 1];
        proof {
            let s = bytes@.subrange(p + j - 1, p + 8);
            assert(s =~= seq![b] + bytes@.subrange(p + j, p + 8));
            assert(s.drop_first() =~= bytes@.subrange(p + j, p + 8));
            assert(s[0] == b);
            assert(from_le(s) == b + 256 * from_le(bytes@.subrange(p + j, p + 8)));
            assert(256 * acc + b < pow256((8 - (j - 1)) as nat)) by (nonlinear_arith)
                requires
                    acc < pow256((8 - j) as nat),
                    0 <= acc,
                    0 <= b < 256,
                    pow256((8 - (j - 1)) as nat) == 256 * pow256((8 - j) as nat),
            ;
            assert(pow256((8 - (j - 1)) as nat) <= pow256(8)) by {
                lemma_pow256_mono((8 - (j - 1)) as nat, 8);
            }
        }
        acc = acc * 256 + b as u64;
        j = j - 1;
    }
    proof {
        assert(bytes@.subrange(p as int, p + 8) == bytes@.subrange(p + 0, p + 8));
    }
    Some((acc, p + 8))
}

proof fn lemma_pow256_mono(a: nat, b: nat)
    requires
        a <= b,
    ensures
        pow256(a) <= pow256(b),
    decreases b,
{
    if a < b {
        lemma_pow256_mono(a, (b - 1) as nat);
        lemma_pow256_pos((b - 1) as nat);
        assert(pow256(b) == 256 * pow256((b - 1) as nat));
        assert(pow256((b - 1) as nat) <= 256 * pow256((b - 1) as nat)) by (nonlinear_arith)
            requires
                pow256((b - 1) as nat) >= 1,
        ;
    }
}

proof fn lemma_pow256_pos(k: nat)
    ensures
        pow256(k) >= 1,
    decreases k,
{
    if k > 0 {
        lemma_pow256_pos((k - 1) as nat);
        assert(256 * pow256((k - 1) as nat) >= pow256((k - 1) as nat)) by (nonlinear_arith)
            requires
                pow256((k - 1) as nat) >= 1,
        ;
    }
}

/// A written integer parses back to itself, wherever it stands in a frame.
proof fn lemma_parse_enc_u64(s: Seq<u8>, p: int, v: u64)
    requires
        0 <= p,
        p + 8 <= s.len(),
        s.subrange(p, p + 8) == enc_u64(v),
    ensures
        sp_u64(s, p) == Some((v, p + 8)),
{
    lemma_pow256_8();
    lemma_from_le_bytes(v as int, 8);
}


/// A code point a `char` can carry: not a surrogate, at most the largest
/// scalar value.
pub open spec fn is_scalar_u64(v: u64) -> bool {
    v < 0xD800 || (0xE000 <= v && v < 0x11_0000)
}

/// Relies on char::from_u32: a char comes back exactly for the unicode
/// scalar values (everything below the surrogate range, and from the end of
/// the surrogate range up to the largest code point), carrying that value.
pub assume_specification[ char::from_u32 ](v: u32) -> (r: Option<char>)
    ensures
        r is Some <==> is_scalar_u64(v as u64),
        r matches Some(c) ==> c as u32 == v,
;

/// Relies on String::push: appends the given character to the end of the
/// string.
pub assume_specification[ String::push ](s: &mut String, c: char)
    ensures
        final(s)@ == old(s)@.push(c),
;

/// One character on the wire: its code point as an integer.
pub open spec fn enc_char(c: char) -> Seq<u8> {
    enc_u64(c as u32 as u64)
}

/// A run of characters on the wire.
pub open spec fn enc_chars(s: Seq<char>) -> Seq<u8>
    decreases s.len(),
{
    if s.len() == 0 {
        Seq::empty()
    } else {
        enc_char(s[0]) + enc_chars(s.drop_first())
    }
}

/// A string on the wire: its character count, then its characters.
pub open spec fn enc_str(s: Seq<char>) -> Seq<u8> {
    enc_u64(s.len() as u64) + enc_chars(s)
}

/// One character parsed at `p`: an integer that must be a scalar value.
pub open spec fn sp_char(s: Seq<u8>, p: int) -> Option<(char, int)> {
    match sp_u64(s, p) {
        None => None,
        Some((v, q)) => if is_scalar_u64(v) {
            Some(((v as u32) as char, q))
        } else {
            None
        },
    }
}

/// `n` characters parsed from `p` on.
pub open spec fn sp_chars(s: Seq<u8>, p: int, n: nat) -> Option<(Seq<char>, int)>
    decreases n,
{
    if n == 0 {
        Some((Seq::empty(), p))
    } else {
        match sp_char(s, p) {
            None => None,
            Some((c, q)) => match sp_chars(s, q, (n - 1) as nat) {
                None => None,
                Some((cs, r)) => Some((seq![c] + cs, r)),
            },
        }
    }
}

/// A string parsed at `p`: its character count, then that many characters.
pub open spec fn sp_str(s: Seq<u8>, p: int) -> Option<(Seq<char>, int)> {
    match sp_u64(s, p) {
        None => None,
        Some((n, q)) => sp_chars(s, q, n as nat),
    }
}

/// Appending one character extends the encoded run by that character.
proof fn lemma_enc_chars_push(s: Seq<char>, c: char)
    ensures
        enc_chars(s.push(c)) == enc_chars(s) + enc_char(c),
    decreases s.len(),
{
    if s.len() == 0 {
        assert(s.push(c).drop_first() =~= Seq::<char>::empty());
        assert(s.push(c)[0] == c);
        assert(enc_chars(Seq::<char>::empty()) == Seq::<u8>::empty());
        assert(enc_chars(s.push(c)) == enc_char(c) + Seq::<u8>::empty());
        assert(enc_chars(s.push(c)) =~= enc_chars(s) + enc_char(c));
    } else {
        assert(s.push(c).drop_first() =~= s.drop_first().push(c));
        assert(s.push(c)[0] == s[0]);
        lemma_enc_chars_push(s.drop_first(), c);
        assert(enc_chars(s.push(c)) == enc_char(s[0]) + enc_chars(s.drop_first().push(c)));
        assert(enc_chars(s.push(c)) =~= enc_chars(s) + enc_char(c));
    }
}

proof fn lemma_enc_chars_len(s: Seq<char>)
    ensures
        enc_chars(s).len() == 8 * s.len(),
    decreases s.len(),
{
    if s.len() > 0 {
        lemma_enc_chars_len(s.drop_first());
        lemma_le_bytes_len(s[0] as u32 as u64 as int, 8);
    }
}

/// Append one string (count, then characters) to the output buffer.
fn write_str(out: &mut Vec<u8>, s: &String)
    ensures
        final(out)@ == old(out)@ + enc_str(s@),
{
    let len = s.as_str().unicode_len();
    write_u64(out, len as u64);
    let mut i: usize = 0;
    while i < len
        invariant
            len == s@.len(),
            0 <= i <= len,
            out@ == old(out)@ + enc_u64(len as u64) + enc_chars(s@.take(i as int)),
        decreases len - i,
    {
        let c = s.as_str().get_char(i);
        let ghost pre = s@.take(i as int);
        write_u64(out, c as u32 as u64);
        proof {
            assert(s@.take(i + 1) =~= pre.push(c));
            lemma_enc_chars_push(pre, c);
            assert(out@ =~= old(out)@ + enc_u64(len as u64) + enc_chars(s@.take(i + 1)));
        }
        i = i + 1;
    }
    proof {
        assert(s@.take(len as int) =~= s@);
        assert(out@ =~= old(out)@ + enc_str(s@));
    }
}

/// Read one string at `p`, exactly as [`sp_str`] describes.
fn read_str(bytes: &Vec<u8>, p: usize) -> (r: Option<(String, usize)>)
    ensures
        match sp_str(bytes@, p as int) {
            None => r is None,
            Some((cs, q)) => r matches Some(t) && t.0@ == cs && t.1 == q,
        },
{
    let (n, mut cur) = match read_u64(bytes, p) {
        None => {
            return None;
        },
        Some(t) => t,
    };
    proof {
        vstd::std_specs::vec::axiom_spec_len(bytes);
        let t = sp_u64(bytes@, p as int);
        assert(t is Some);
        assert((t->0).0 == n);
        assert((t->0).1 <= bytes@.len());
        assert((t->0).1 == cur as int);
        assert(sp_str(bytes@, p as int) == sp_chars(bytes@, cur as int, n as nat));
    }
    let ghost p1 = cur as int;
    let mut acc = String::new();
    let mut i: u64 = 0;
    while i < n
        invariant
            0 <= i <= n,
            sp_str(bytes@, p as int) == sp_chars(bytes@, p1, n as nat),
            match sp_chars(bytes@, cur as int, (n - i) as nat) {
                Some(t) => sp_chars(bytes@, p1, n as nat) == Some((acc@ + t.0, t.1)),
                None => sp_chars(bytes@, p1, n as nat) is None,
            },
        decreases n - i,
    {
        let ghost cur0 = cur as int;
        let (v, q) = match read_u64(bytes, cur) {
            None => {
                proof {
                    assert(sp_char(bytes@, cur0) is None);
                    assert(sp_chars(bytes@, cur0, (n - i) as nat) is None);
                }
                return None;
            },
            Some(t) => t,
        };
        if !(v < 0xD800 || (0xE000 <= v && v < 0x11_0000)) {
            proof {
                assert(sp_char(bytes@, cur0) is None);
                assert(sp_chars(bytes@, cur0, (n - i) as nat) is None);
            }
            return None;
        }
        let c = match char::from_u32(v as u32) {
            None => {
                return None;
            },
            Some(c) => c,
        };
        let ghost pre = acc@;
        acc.push(c);
        proof {
            let vu: u32 = v as u32;
            assert(c as u32 == vu);
            vstd::utf8::char_u32_cast(c, vu);
            assert(vu as char == c);
            assert(is_scalar_u64(v));
            vstd::std_specs::vec::axiom_spec_len(bytes);
            let t = sp_u64(bytes@, cur0);
            assert(t is Some);
            assert((t->0).0 == v);
            assert((t->0).1 <= bytes@.len());
            assert((t->0).1 == q as int);
            assert(sp_char(bytes@, cur0) == Some((c, q as int)));
            assert(acc@ == pre.push(c));
            match sp_chars(bytes@, q as int, (n - (i + 1)) as nat) {
                Some(t) => {
                    assert(sp_chars(bytes@, cur0, (n - i) as nat) == Some((
                        seq![c] + t.0,
                        t.1,
                    )));
                    assert(pre + (seq![c] + t.0) =~= acc@ + t.0);
                },
                None => {
                    assert(sp_chars(bytes@, cur0, (n - i) as nat) is None);
                },
            }
        }
        cur = q;
        i = i + 1;
    }
    proof {
        assert(sp_chars(bytes@, cur as int, 0) == Some((Seq::<char>::empty(), cur as int)));
        assert(acc@ + Seq::<char>::empty() =~= acc@);
    }
    Some((acc, cur))
}

/// A written string parses back to itself, wherever it stands in a frame.
proof fn lemma_parse_enc_str(s: Seq<u8>, p: int, cs: Seq<char>)
    requires
        0 <= p,
        cs.len() < 0x1_0000_0000_0000_0000,
        p + 8 + 8 * cs.len() <= s.len(),
        s.subrange(p, p + 8 + 8 * cs.len()) == enc_str(cs),
    ensures
        sp_str(s, p) == Some((cs, p + 8 + 8 * cs.len())),
{
    lemma_enc_chars_len(cs);
    lemma_le_bytes_len(cs.len() as u64 as int, 8);
    let big = s.subrange(p, p + 8 + 8 * cs.len());
    assert forall|t: int| 0 <= t < 8 implies #[trigger] s.subrange(p, p + 8)[t] == enc_u64(
        cs.len() as u64,
    )[t] by {
        assert(big[t] == enc_str(cs)[t]);
    }
    assert(s.subrange(p, p + 8) =~= enc_u64(cs.len() as u64));
    lemma_parse_enc_u64(s, p, cs.len() as u64);
    assert forall|t: int| 0 <= t < 8 * cs.len() implies #[trigger] s.subrange(
        p + 8,
        p + 8 + 8 * cs.len(),
    )[t] == enc_chars(cs)[t] by {
        assert(big[8 + t] == s[p + 8 + t]);
        assert(s.subrange(p + 8, p + 8 + 8 * cs.len())[t] == s[p + 8 + t]);
        assert(big[8 + t] == enc_str(cs)[8 + t]);
        assert(enc_str(cs)[8 + t] == enc_chars(cs)[t]);
    }
    assert(s.subrange(p + 8, p + 8 + 8 * cs.len()) =~= enc_chars(cs));
    lemma_parse_enc_chars(s, p + 8, cs);
}

/// A written run of characters parses back to itself.
proof fn lemma_parse_enc_chars(s: Seq<u8>, p: int, cs: Seq<char>)
    requires
        0 <= p,
        p + 8 * cs.len() <= s.len(),
        s.subrange(p, p + 8 * cs.len()) == enc_chars(cs),
    ensures
        sp_chars(s, p, cs.len()) == Some((cs, p + 8 * cs.len())),
    decreases cs.len(),
{
    if cs.len() > 0 {
        let c = cs[0];
        lemma_enc_chars_len(cs);
        lemma_enc_chars_len(cs.drop_first());
        lemma_le_bytes_len(c as u32 as u64 as int, 8);
        let big = s.subrange(p, p + 8 * cs.len());
        assert forall|t: int|
            0 <= t < 8 implies #[trigger] s.subrange(p, p + 8)[t] == enc_char(c)[t] by {
            assert(big[t] == enc_chars(cs)[t]);
        }
        assert(s.subrange(p, p + 8) =~= enc_char(c));
        lemma_parse_enc_u64(s, p, c as u32 as u64);
        assert(is_scalar_u64(c as u32 as u64)) by {
            vstd::utf8::char_is_scalar(c);
        }
        assert(sp_char(s, p) == Some((c, p + 8))) by {
            vstd::utf8::char_u32_cast(c, c as u32);
        }
        assert forall|t: int| 0 <= t < 8 * cs.drop_first().len() implies #[trigger] s.subrange(
            p + 8,
            p + 8 + 8 * cs.drop_first().len(),
        )[t] == enc_chars(cs.drop_first())[t] by {
            assert(big[8 + t] == s[p + 8 + t]);
            assert(s.subrange(p + 8, p + 8 + 8 * cs.drop_first().len())[t] == s[p + 8 + t]);
            assert(big[8 + t] == enc_chars(cs)[8 + t]);
            assert(enc_chars(cs)[8 + t] == enc_chars(cs.drop_first())[t]);
        }
        assert(s.subrange(p + 8, p + 8 + 8 * cs.drop_first().len()) =~= enc_chars(
            cs.drop_first(),
        ));
        lemma_parse_enc_chars(s, p + 8, cs.drop_first());
        assert(seq![c] + cs.drop_first() =~= cs);
    }
}


/// The fields of a client message: tag, first string, second string (empty
/// where the variant has only one).
pub open spec fn client_msg_view(m: MessageFromClient) -> (int, Seq<char>, Seq<char>) {
    match m {
        MessageFromClient::JoinGame((id, name)) => (1, id@, name@),
        MessageFromClient::LeaveGame(id) => (2, id@, Seq::empty()),
        MessageFromClient::KeyEvent((id, key)) => (3, id@, key@),
        MessageFromClient::InputName(name) => (4, name@, Seq::empty()),
    }
}

/// A client message on the wire: its tag, then its one or two strings.
pub open spec fn enc_client(v: (int, Seq<char>, Seq<char>)) -> Seq<u8> {
    if v.0 == 1 || v.0 == 3 {
        enc_u64(v.0 as u64) + enc_str(v.1) + enc_str(v.2)
    } else {
        enc_u64(v.0 as u64) + enc_str(v.1)
    }
}

/// The one client message a frame spells, by its fields: a known tag, its
/// strings, and nothing left over.
pub open spec fn sp_client(s: Seq<u8>) -> Option<(int, Seq<char>, Seq<char>)> {
    match sp_u64(s, 0) {
        None => None,
        Some((tag, p1)) => if tag == 1 || tag == 3 {
            match sp_str(s, p1) {
                None => None,
                Some((a, p2)) => match sp_str(s, p2) {
                    None => None,
                    Some((b, p3)) => if p3 == s.len() {
                        Some((tag as int, a, b))
                    } else {
                        None
                    },
                },
            }
        } else if tag == 2 || tag == 4 {
            match sp_str(s, p1) {
                None => None,
                Some((a, p2)) => if p2 == s.len() {
                    Some((tag as int, a, Seq::empty()))
                } else {
                    None
                },
            }
        } else {
            None
        },
    }
}

/// Encode one client message. Always succeeds: every client message can
/// travel.
pub fn encode_message_from_client(m: &MessageFromClient) -> (r: Vec<u8>)
    ensures
        r@ == enc_client(client_msg_view(*m)),
{
    let mut out: Vec<u8> = Vec::new();
    match m {
        MessageFromClient::JoinGame((id, name)) => {
            write_u64(&mut out, 1);
            write_str(&mut out, id);
            write_str(&mut out, name);
        },
        MessageFromClient::LeaveGame(id) => {
            write_u64(&mut out, 2);
            write_str(&mut out, id);
        },
        MessageFromClient::KeyEvent((id, key)) => {
            write_u64(&mut out, 3);
            write_str(&mut out, id);
            write_str(&mut out, key);
        },
        MessageFromClient::InputName(name) => {
            write_u64(&mut out, 4);
            write_str(&mut out, name);
        },
    }
    proof {
        assert(out@ =~= enc_client(client_msg_view(*m)));
    }
    out
}

/// Decode one client message, exactly as [`sp_client`] describes: the result
/// is the message whose fields the frame spells, and an error exactly when
/// the frame spells none.
pub fn decode_message_from_client(bytes: &Vec<u8>) -> (r: Result<MessageFromClient, DecodeError>)
    ensures
        match sp_client(bytes@) {
            None => r is Err,
            Some(v) => r matches Ok(m) && client_msg_view(m) == v,
        },
{
    let (tag, p1) = match read_u64(bytes, 0) {
        None => {
            return Err(DecodeError);
        },
        Some(t) => t,
    };
    if tag == 1 || tag == 3 {
        let (a, p2) = match read_str(bytes, p1) {
            None => {
                return Err(DecodeError);
            },
            Some(t) => t,
        };
        let (b, p3) = match read_str(bytes, p2) {
            None => {
                return Err(DecodeError);
            },
            Some(t) => t,
        };
        if p3 != bytes.len() {
            return Err(DecodeError);
        }
        if tag == 1 {
            Ok(MessageFromClient::JoinGame((a, b)))
        } else {
            Ok(MessageFromClient::KeyEvent((a, b)))
        }
    } else if tag == 2 || tag == 4 {
        let (a, p2) = match read_str(bytes, p1) {
            None => {
                return Err(DecodeError);
            },
            Some(t) => t,
        };
        if p2 != bytes.len() {
            return Err(DecodeError);
        }
        if tag == 2 {
            Ok(MessageFromClient::LeaveGame(a))
        } else {
            Ok(MessageFromClient::InputName(a))
        }
    } else {
        Err(DecodeError)
    }
}

/// Round trip for the client leg: a frame encoding any client message's
/// fields parses back to exactly those fields. Together with the contracts
/// of [`encode_message_from_client`] and [`decode_message_from_client`] this
/// makes the encoding lossless for every client message.
pub proof fn lemma_client_codec_round_trip(v: (int, Seq<char>, Seq<char>))
    requires
        1 <= v.0 <= 4,
        v.1.len() < 0x1_0000_0000_0000_0000,
        v.2.len() < 0x1_0000_0000_0000_0000,
        v.0 == 2 || v.0 == 4 ==> v.2 == Seq::<char>::empty(),
    ensures
        sp_client(enc_client(v)) == Some(v),
{
    let s = enc_client(v);
    let e1 = enc_u64(v.0 as u64);
    let e2 = enc_str(v.1);
    let l2: int = 8 + 8 * (v.1.len() as int);
    lemma_le_bytes_len(v.0 as u64 as int, 8);
    lemma_le_bytes_len(v.1.len() as u64 as int, 8);
    lemma_le_bytes_len(v.2.len() as u64 as int, 8);
    lemma_enc_chars_len(v.1);
    lemma_enc_chars_len(v.2);
    assert(e2.len() == l2);
    if v.0 == 1 || v.0 == 3 {
        let e3 = enc_str(v.2);
        let l3: int = 8 + 8 * (v.2.len() as int);
        assert(e3.len() == l3);
        assert(s == e1 + e2 + e3);
        assert(s.len() == 8 + l2 + l3);
        assert(s.subrange(0, 8) =~= e1);
        lemma_parse_enc_u64(s, 0, v.0 as u64);
        assert(s.subrange(8, 8 + l2) =~= e2);
        lemma_parse_enc_str(s, 8, v.1);
        assert(s.subrange(8 + l2, 8 + l2 + l3) =~= e3);
        lemma_parse_enc_str(s, 8 + l2, v.2);
    } else {
        assert(s == e1 + e2);
        assert(s.len() == 8 + l2);
        assert(s.subrange(0, 8) =~= e1);
        lemma_parse_enc_u64(s, 0, v.0 as u64);
        assert(s.subrange(8, 8 + l2) =~= e2);
        lemma_parse_enc_str(s, 8, v.1);
    }
}


/// Every position lies inside the arena.
pub open spec fn positions_in_arena(fs: Seq<Position>) -> bool {
    forall|i: int| 0 <= i < fs.len() ==> (#[trigger] fs[i]).in_arena()
}

/// A snapshot whose geometry the wire can carry: every coordinate in-arena.
pub open spec fn sync_data_valid(d: SyncData) -> bool {
    &&& positions_in_arena(d.foods@)
    &&& forall|i: int|
        0 <= i < d.players@.len() ==> positions_in_arena((#[trigger] d.players@[i]).1@)
}

/// The snapshot rows as mathematical pairs of id and segment positions.
pub open spec fn players_views(ps: Seq<(String, Vec<Position>)>) -> Seq<(Seq<char>, Seq<Position>)> {
    Seq::new(ps.len(), |i: int| (ps[i].0@, ps[i].1@))
}

/// One position on the wire: its two coordinates.
pub open spec fn enc_pos(p: Position) -> Seq<u8> {
    enc_u64(p.x as u64) + enc_u64(p.y as u64)
}

/// A run of positions on the wire.
pub open spec fn enc_pos_seq(fs: Seq<Position>) -> Seq<u8>
    decreases fs.len(),
{
    if fs.len() == 0 {
        Seq::empty()
    } else {
        enc_pos(fs[0]) + enc_pos_seq(fs.drop_first())
    }
}

/// One leaderboard row on the wire: its name, then its score.
pub open spec fn enc_row(r: (Seq<char>, int)) -> Seq<u8> {
    enc_str(r.0) + enc_u64(r.1 as u64)
}

/// A run of leaderboard rows on the wire.
pub open spec fn enc_rows(rows: Seq<(Seq<char>, int)>) -> Seq<u8>
    decreases rows.len(),
{
    if rows.len() == 0 {
        Seq::empty()
    } else {
        enc_row(rows[0]) + enc_rows(rows.drop_first())
    }
}

/// One snapshot row on the wire: the player's id, then its segment count and
/// segments.
pub open spec fn enc_player(p: (Seq<char>, Seq<Position>)) -> Seq<u8> {
    enc_str(p.0) + enc_u64(p.1.len() as u64) + enc_pos_seq(p.1)
}

/// A run of snapshot rows on the wire.
pub open spec fn enc_players(ps: Seq<(Seq<char>, Seq<Position>)>) -> Seq<u8>
    decreases ps.len(),
{
    if ps.len() == 0 {
        Seq::empty()
    } else {
        enc_player(ps[0]) + enc_players(ps.drop_first())
    }
}

/// The handshake reply on the wire.
pub open spec fn enc_server_connected(id: Seq<char>) -> Seq<u8> {
    enc_u64(1) + enc_str(id)
}

/// The ranking on the wire.
pub open spec fn enc_server_leader_board(rows: Seq<(Seq<char>, int)>) -> Seq<u8> {
    enc_u64(2) + enc_u64(rows.len() as u64) + enc_rows(rows)
}

/// The snapshot on the wire.
pub open spec fn enc_server_sync(ps: Seq<(Seq<char>, Seq<Position>)>, fs: Seq<Position>) -> Seq<
    u8,
> {
    enc_u64(3) + enc_u64(ps.len() as u64) + enc_players(ps) + enc_u64(fs.len() as u64)
        + enc_pos_seq(fs)
}

/// One position parsed at `p`: two coordinates, each inside the arena.
pub open spec fn sp_pos(s: Seq<u8>, p: int) -> Option<(Position, int)> {
    match sp_u64(s, p) {
        None => None,
        Some((x, q)) => match sp_u64(s, q) {
            None => None,
            Some((y, q2)) => if x < crate::ARENA_WIDTH && y < crate::ARENA_HEIGHT {
                Some((Position { x: x as i32, y: y as i32 }, q2))
            } else {
                None
            },
        },
    }
}

/// `n` positions parsed from `p` on.
pub open spec fn sp_pos_seq(s: Seq<u8>, p: int, n: nat) -> Option<(Seq<Position>, int)>
    decreases n,
{
    if n == 0 {
        Some((Seq::empty(), p))
    } else {
        match sp_pos(s, p) {
            None => None,
            Some((v, q)) => match sp_pos_seq(s, q, (n - 1) as nat) {
                None => None,
                Some((vs, r)) => Some((seq![v] + vs, r)),
            },
        }
    }
}

/// One leaderboard row parsed at `p`: a name and a score the machine can hold.
pub open spec fn sp_row(s: Seq<u8>, p: int) -> Option<((Seq<char>, int), int)> {
    match sp_str(s, p) {
        None => None,
        Some((name, q)) => match sp_u64(s, q) {
            None => None,
            Some((sc, q2)) => if sc <= usize::MAX {
                Some(((name, sc as int), q2))
            } else {
                None
            },
        },
    }
}

/// `n` leaderboard rows parsed from `p` on.
pub open spec fn sp_rows(s: Seq<u8>, p: int, n: nat) -> Option<(Seq<(Seq<char>, int)>, int)>
    decreases n,
{
    if n == 0 {
        Some((Seq::empty(), p))
    } else {
        match sp_row(s, p) {
            None => None,
            Some((v, q)) => match sp_rows(s, q, (n - 1) as nat) {
                None => None,
                Some((vs, r)) => Some((seq![v] + vs, r)),
            },
        }
    }
}

/// One snapshot row parsed at `p`: an id, a segment count, that many segments.
pub open spec fn sp_player(s: Seq<u8>, p: int) -> Option<((Seq<char>, Seq<Position>), int)> {
    match sp_str(s, p) {
        None => None,
        Some((id, q)) => match sp_u64(s, q) {
            None => None,
            Some((ns, q2)) => match sp_pos_seq(s, q2, ns as nat) {
                None => None,
                Some((poss, q3)) => Some(((id, poss), q3)),
            },
        },
    }
}

/// `n` snapshot rows parsed from `p` on.
pub open spec fn sp_players(s: Seq<u8>, p: int, n: nat) -> Option<(
    Seq<(Seq<char>, Seq<Position>)>,
    int,
)>
    decreases n,
{
    if n == 0 {
        Some((Seq::empty(), p))
    } else {
        match sp_player(s, p) {
            None => None,
            Some((v, q)) => match sp_players(s, q, (n - 1) as nat) {
                None => None,
                Some((vs, r)) => Some((seq![v] + vs, r)),
            },
        }
    }
}

proof fn lemma_enc_pos_seq_push(fs: Seq<Position>, p: Position)
    ensures
        enc_pos_seq(fs.push(p)) == enc_pos_seq(fs) + enc_pos(p),
    decreases fs.len(),
{
    if fs.len() == 0 {
        assert(fs.push(p).drop_first() =~= Seq::<Position>::empty());
        assert(fs.push(p)[0] == p);
        assert(enc_pos_seq(Seq::<Position>::empty()) == Seq::<u8>::empty());
        assert(enc_pos_seq(fs.push(p)) =~= enc_pos_seq(fs) + enc_pos(p));
    } else {
        assert(fs.push(p).drop_first() =~= fs.drop_first().push(p));
        assert(fs.push(p)[0] == fs[0]);
        lemma_enc_pos_seq_push(fs.drop_first(), p);
        assert(enc_pos_seq(fs.push(p)) =~= enc_pos_seq(fs) + enc_pos(p));
    }
}

proof fn lemma_enc_rows_push(rows: Seq<(Seq<char>, int)>, r: (Seq<char>, int))
    ensures
        enc_rows(rows.push(r)) == enc_rows(rows) + enc_row(r),
    decreases rows.len(),
{
    if rows.len() == 0 {
        assert(rows.push(r).drop_first() =~= Seq::<(Seq<char>, int)>::empty());
        assert(rows.push(r)[0] == r);
        assert(enc_rows(Seq::<(Seq<char>, int)>::empty()) == Seq::<u8>::empty());
        assert(enc_rows(rows.push(r)) =~= enc_rows(rows) + enc_row(r));
    } else {
        assert(rows.push(r).drop_first() =~= rows.drop_first().push(r));
        assert(rows.push(r)[0] == rows[0]);
        lemma_enc_rows_push(rows.drop_first(), r);
        assert(enc_rows(rows.push(r)) =~= enc_rows(rows) + enc_row(r));
    }
}

proof fn lemma_enc_players_push(ps: Seq<(Seq<char>, Seq<Position>)>, p: (Seq<char>, Seq<Position>))
    ensures
        enc_players(ps.push(p)) == enc_players(ps) + enc_player(p),
    decreases ps.len(),
{
    if ps.len() == 0 {
        assert(ps.push(p).drop_first() =~= Seq::<(Seq<char>, Seq<Position>)>::empty());
        assert(ps.push(p)[0] == p);
        assert(enc_players(Seq::<(Seq<char>, Seq<Position>)>::empty()) == Seq::<u8>::empty());
        assert(enc_players(ps.push(p)) =~= enc_players(ps) + enc_player(p));
    } else {
        assert(ps.push(p).drop_first() =~= ps.drop_first().push(p));
        assert(ps.push(p)[0] == ps[0]);
        lemma_enc_players_push(ps.drop_first(), p);
        assert(enc_players(ps.push(p)) =~= enc_players(ps) + enc_player(p));
    }
}

/// True when every listed position lies inside the arena.
fn positions_ok(v: &Vec<Position>) -> (r: bool)
    ensures
        r == positions_in_arena(v@),
{
    let n = v.len();
    let mut i: usize = 0;
    while i < n
        invariant
            n == v@.len(),
            0 <= i <= n,
            forall|k: int| 0 <= k < i ==> (#[trigger] v@[k]).in_arena(),
        decreases n - i,
    {
        let p = v[i];
        if !(p.x >= 0 && p.y >= 0 && p.x < crate::ARENA_WIDTH as i32 && p.y
            < crate::ARENA_HEIGHT as i32) {
            return false;
        }
        i = i + 1;
    }
    true
}

/// Append a run of positions to the output buffer.
fn write_pos_seq(out: &mut Vec<u8>, v: &Vec<Position>)
    requires
        positions_in_arena(v@),
    ensures
        final(out)@ == old(out)@ + enc_pos_seq(v@),
{
    let n = v.len();
    let mut i: usize = 0;
    while i < n
        invariant
            n == v@.len(),
            positions_in_arena(v@),
            0 <= i <= n,
            out@ == old(out)@ + enc_pos_seq(v@.take(i as int)),
        decreases n - i,
    {
        let p = v[i];
        let ghost pre = v@.take(i as int);
        write_u64(out, p.x as u64);
        write_u64(out, p.y as u64);
        proof {
            assert(v@[i as int].in_arena());
            assert(v@.take(i + 1) =~= pre.push(p));
            lemma_enc_pos_seq_push(pre, p);
            assert(out@ =~= old(out)@ + enc_pos_seq(v@.take(i + 1)));
        }
        i = i + 1;
    }
    proof {
        assert(v@.take(n as int) =~= v@);
    }
}

/// Encode one server message. The handshake reply and the ranking always
/// travel; a snapshot travels exactly when its geometry fits the arena.
pub fn encode_message_from_server(m: &MessageFromServer) -> (r: Option<Vec<u8>>)
    ensures
        match *m {
            MessageFromServer::OnConnected(ref id) => r matches Some(b) && b@
                == enc_server_connected(id@),
            MessageFromServer::LeaderBoard(ref lb) => r matches Some(b) && b@
                == enc_server_leader_board(lb_views(lb@)),
            MessageFromServer::SyncData(ref d) => if sync_data_valid(*d) {
                r matches Some(b) && b@ == enc_server_sync(players_views(d.players@), d.foods@)
            } else {
                r is None
            },
        },
{
    let mut out: Vec<u8> = Vec::new();
    match m {
        MessageFromServer::OnConnected(id) => {
            write_u64(&mut out, 1);
            write_str(&mut out, id);
            proof {
                assert(out@ =~= enc_server_connected(id@));
            }
            Some(out)
        },
        MessageFromServer::LeaderBoard(lb) => {
            write_u64(&mut out, 2);
            let n = lb.0.len();
            write_u64(&mut out, n as u64);
            let mut i: usize = 0;
            while i < n
                invariant
                    n == lb@.len(),
                    0 <= i <= n,
                    out@ == enc_u64(2) + enc_u64(n as u64) + enc_rows(lb_views(lb@).take(i as int)),
                decreases n - i,
            {
                let ghost pre = lb_views(lb@).take(i as int);
                write_str(&mut out, &lb.0[i].0);
                write_u64(&mut out, lb.0[i].1 as u64);
                proof {
                    let row = lb_views(lb@)[i as int];
                    assert(row == (lb@[i as int].0@, lb@[i as int].1 as int));
                    assert(lb_views(lb@).take(i + 1) =~= pre.push(row));
                    lemma_enc_rows_push(pre, row);
                    assert(out@ =~= enc_u64(2) + enc_u64(n as u64) + enc_rows(
                        lb_views(lb@).take(i + 1),
                    ));
                }
                i = i + 1;
            }
            proof {
                assert(lb_views(lb@).take(n as int) =~= lb_views(lb@));
                assert(out@ =~= enc_server_leader_board(lb_views(lb@)));
            }
            Some(out)
        },
        MessageFromServer::SyncData(d) => {
            if !positions_ok(&d.foods) {
                return None;
            }
            let np = d.players.len();
            let mut i: usize = 0;
            while i < np
                invariant
                    *m == MessageFromServer::SyncData(*d),
                    np == d.players@.len(),
                    0 <= i <= np,
                    forall|k: int|
                        0 <= k < i ==> positions_in_arena((#[trigger] d.players@[k]).1@),
                decreases np - i,
            {
                if !positions_ok(&d.players[i].1) {
                    return None;
                }
                i = i + 1;
            }
            write_u64(&mut out, 3);
            write_u64(&mut out, np as u64);
            let mut i: usize = 0;
            while i < np
                invariant
                    np == d.players@.len(),
                    0 <= i <= np,
                    forall|k: int|
                        0 <= k < np ==> positions_in_arena((#[trigger] d.players@[k]).1@),
                    out@ == enc_u64(3) + enc_u64(np as u64) + enc_players(
                        players_views(d.players@).take(i as int),
                    ),
                decreases np - i,
            {
                let ghost pre = players_views(d.players@).take(i as int);
                write_str(&mut out, &d.players[i].0);
                write_u64(&mut out, d.players[i].1.len() as u64);
                write_pos_seq(&mut out, &d.players[i].1);
                proof {
                    let row = players_views(d.players@)[i as int];
                    assert(row == (d.players@[i as int].0@, d.players@[i as int].1@));
                    assert(players_views(d.players@).take(i + 1) =~= pre.push(row));
                    lemma_enc_players_push(pre, row);
                    assert(out@ =~= enc_u64(3) + enc_u64(np as u64) + enc_players(
                        players_views(d.players@).take(i + 1),
                    ));
                }
                i = i + 1;
            }
            proof {
                assert(players_views(d.players@).take(np as int) =~= players_views(d.players@));
            }
            write_u64(&mut out, d.foods.len() as u64);
            write_pos_seq(&mut out, &d.foods);
            proof {
                assert(out@ =~= enc_server_sync(players_views(d.players@), d.foods@));
            }
            Some(out)
        },
    }
}


/// Read one position at `p`, exactly as [`sp_pos`] describes.
fn read_pos(bytes: &Vec<u8>, p: usize) -> (r: Option<(Position, usize)>)
    ensures
        match sp_pos(bytes@, p as int) {
            None => r is None,
            Some((v, q)) => r matches Some(t) && t.0 == v && t.1 == q,
        },
{
    let (x, q) = match read_u64(bytes, p) {
        None => {
            return None;
        },
        Some(t) => t,
    };
    let (y, q2) = match read_u64(bytes, q) {
        None => {
            return None;
        },
        Some(t) => t,
    };
    if x < crate::ARENA_WIDTH as u64 && y < crate::ARENA_HEIGHT as u64 {
        Some((Position { x: x as i32, y: y as i32 }, q2))
    } else {
        None
    }
}

/// Read `n` positions from `p` on, exactly as [`sp_pos_seq`] describes.
fn read_pos_seq(bytes: &Vec<u8>, p: usize, n: u64) -> (r: Option<(Vec<Position>, usize)>)
    ensures
        match sp_pos_seq(bytes@, p as int, n as nat) {
            None => r is None,
            Some((vs, q)) => r matches Some(t) && t.0@ == vs && t.1 == q,
        },
{
    let mut acc: Vec<Position> = Vec::new();
    let mut cur = p;
    let mut i: u64 = 0;
    while i < n
        invariant
            0 <= i <= n,
            match sp_pos_seq(bytes@, cur as int, (n - i) as nat) {
                Some(t) => sp_pos_seq(bytes@, p as int, n as nat) == Some((acc@ + t.0, t.1)),
                None => sp_pos_seq(bytes@, p as int, n as nat) is None,
            },
        decreases n - i,
    {
        let ghost cur0 = cur as int;
        let (v, q) = match read_pos(bytes, cur) {
            None => {
                proof {
                    assert(sp_pos_seq(bytes@, cur0, (n - i) as nat) is None);
                }
                return None;
            },
            Some(t) => t,
        };
        let ghost pre = acc@;
        acc.push(v);
        proof {
            let t0 = sp_pos(bytes@, cur0);
            assert(t0 is Some && (t0->0).0 == v && (t0->0).1 == q as int);
            assert(acc@ == pre.push(v));
            match sp_pos_seq(bytes@, q as int, (n - (i + 1)) as nat) {
                Some(t) => {
                    assert(sp_pos_seq(bytes@, cur0, (n - i) as nat) == Some((
                        seq![v] + t.0,
                        t.1,
                    )));
                    assert(pre + (seq![v] + t.0) =~= acc@ + t.0);
                },
                None => {
                    assert(sp_pos_seq(bytes@, cur0, (n - i) as nat) is None);
                },
            }
        }
        cur = q;
        i = i + 1;
    }
    proof {
        assert(sp_pos_seq(bytes@, cur as int, 0) == Some((
            Seq::<Position>::empty(),
            cur as int,
        )));
        assert(acc@ + Seq::<Position>::empty() =~= acc@);
    }
    Some((acc, cur))
}

/// Read `n` leaderboard rows from `p` on, exactly as [`sp_rows`] describes.
fn read_rows(bytes: &Vec<u8>, p: usize, n: u64) -> (r: Option<(Vec<(String, usize)>, usize)>)
    ensures
        match sp_rows(bytes@, p as int, n as nat) {
            None => r is None,
            Some((vs, q)) => r matches Some(t) && lb_views(t.0@) == vs && t.1 == q,
        },
{
    let mut acc: Vec<(String, usize)> = Vec::new();
    let mut cur = p;
    let mut i: u64 = 0;
    while i < n
        invariant
            0 <= i <= n,
            match sp_rows(bytes@, cur as int, (n - i) as nat) {
                Some(t) => sp_rows(bytes@, p as int, n as nat) == Some((lb_views(acc@) + t.0, t.1)),
                None => sp_rows(bytes@, p as int, n as nat) is None,
            },
        decreases n - i,
    {
        let ghost cur0 = cur as int;
        let (name, q) = match read_str(bytes, cur) {
            None => {
                proof {
                    assert(sp_row(bytes@, cur0) is None);
                    assert(sp_rows(bytes@, cur0, (n - i) as nat) is None);
                }
                return None;
            },
            Some(t) => t,
        };
        let (sc, q2) = match read_u64(bytes, q) {
            None => {
                proof {
                    assert(sp_row(bytes@, cur0) is None);
                    assert(sp_rows(bytes@, cur0, (n - i) as nat) is None);
                }
                return None;
            },
            Some(t) => t,
        };
        if sc > usize::MAX as u64 {
            proof {
                assert(sp_row(bytes@, cur0) is None);
                assert(sp_rows(bytes@, cur0, (n - i) as nat) is None);
            }
            return None;
        }
        let ghost pre = acc@;
        acc.push((name, sc as usize));
        proof {
            let ts = sp_str(bytes@, cur0);
            assert(ts is Some && (ts->0).0 == name@ && (ts->0).1 == q as int);
            let tu = sp_u64(bytes@, q as int);
            assert(tu is Some && (tu->0).0 == sc && (tu->0).1 == q2 as int);
            assert(sp_row(bytes@, cur0) == Some(((name@, sc as int), q2 as int)));
            assert(lb_views(acc@) =~= lb_views(pre).push((name@, sc as int)));
            match sp_rows(bytes@, q2 as int, (n - (i + 1)) as nat) {
                Some(t) => {
                    assert(sp_rows(bytes@, cur0, (n - i) as nat) == Some((
                        seq![(name@, sc as int)] + t.0,
                        t.1,
                    )));
                    assert(lb_views(pre) + (seq![(name@, sc as int)] + t.0) =~= lb_views(acc@)
                        + t.0);
                },
                None => {
                    assert(sp_rows(bytes@, cur0, (n - i) as nat) is None);
                },
            }
        }
        cur = q2;
        i = i + 1;
    }
    proof {
        assert(sp_rows(bytes@, cur as int, 0) == Some((
            Seq::<(Seq<char>, int)>::empty(),
            cur as int,
        )));
        assert(lb_views(acc@) + Seq::<(Seq<char>, int)>::empty() =~= lb_views(acc@));
    }
    Some((acc, cur))
}

/// Read `n` snapshot rows from `p` on, exactly as [`sp_players`] describes.
fn read_players(bytes: &Vec<u8>, p: usize, n: u64) -> (r: Option<(
    Vec<(String, Vec<Position>)>,
    usize,
)>)
    ensures
        match sp_players(bytes@, p as int, n as nat) {
            None => r is None,
            Some((vs, q)) => r matches Some(t) && players_views(t.0@) == vs && t.1 == q,
        },
{
    let mut acc: Vec<(String, Vec<Position>)> = Vec::new();
    let mut cur = p;
    let mut i: u64 = 0;
    while i < n
        invariant
            0 <= i <= n,
            match sp_players(bytes@, cur as int, (n - i) as nat) {
                Some(t) => sp_players(bytes@, p as int, n as nat) == Some((
                    players_views(acc@) + t.0,
                    t.1,
                )),
                None => sp_players(bytes@, p as int, n as nat) is None,
            },
        decreases n - i,
    {
        let ghost cur0 = cur as int;
        let (id, q) = match read_str(bytes, cur) {
            None => {
                proof {
                    assert(sp_player(bytes@, cur0) is None);
                    assert(sp_players(bytes@, cur0, (n - i) as nat) is None);
                }
                return None;
            },
            Some(t) => t,
        };
        let (ns, q2) = match read_u64(bytes, q) {
            None => {
                proof {
                    assert(sp_player(bytes@, cur0) is None);
                    assert(sp_players(bytes@, cur0, (n - i) as nat) is None);
                }
                return None;
            },
            Some(t) => t,
        };
        let (poss, q3) = match read_pos_seq(bytes, q2, ns) {
            None => {
                proof {
                    assert(sp_player(bytes@, cur0) is None);
                    assert(sp_players(bytes@, cur0, (n - i) as nat) is None);
                }
                return None;
            },
            Some(t) => t,
        };
        let ghost pre = acc@;
        let ghost row = (id@, poss@);
        acc.push((id, poss));
        proof {
            let ts = sp_str(bytes@, cur0);
            assert(ts is Some && (ts->0).0 == id@ && (ts->0).1 == q as int);
            let tu = sp_u64(bytes@, q as int);
            assert(tu is Some && (tu->0).0 == ns && (tu->0).1 == q2 as int);
            let tp = sp_pos_seq(bytes@, q2 as int, ns as nat);
            assert(tp is Some && (tp->0).0 == poss@ && (tp->0).1 == q3 as int);
            assert(sp_player(bytes@, cur0) == Some((row, q3 as int)));
            assert(players_views(acc@) =~= players_views(pre).push(row));
            match sp_players(bytes@, q3 as int, (n - (i + 1)) as nat) {
                Some(t) => {
                    assert(sp_players(bytes@, cur0, (n - i) as nat) == Some((
                        seq![row] + t.0,
                        t.1,
                    )));
                    assert(players_views(pre) + (seq![row] + t.0) =~= players_views(acc@) + t.0);
                },
                None => {
                    assert(sp_players(bytes@, cur0, (n - i) as nat) is None);
                },
            }
        }
        cur = q3;
        i = i + 1;
    }
    proof {
        assert(sp_players(bytes@, cur as int, 0) == Some((
            Seq::<(Seq<char>, Seq<Position>)>::empty(),
            cur as int,
        )));
        assert(players_views(acc@) + Seq::<(Seq<char>, Seq<Position>)>::empty() =~= players_views(
            acc@,
        ));
    }
    Some((acc, cur))
}

/// Decode one server message: the handshake reply, the ranking, or a
/// snapshot, by tag; an error exactly when the frame spells none of them.
pub fn decode_message_from_server(bytes: &Vec<u8>) -> (r: Result<MessageFromServer, DecodeError>)
    ensures
        match sp_u64(bytes@, 0) {
            None => r is Err,
            Some((tag, p1)) => if tag == 1 {
                match sp_str(bytes@, p1) {
                    None => r is Err,
                    Some((cs, q)) => if q == bytes@.len() {
                        r matches Ok(m) && m matches MessageFromServer::OnConnected(id) && id@
                            == cs
                    } else {
                        r is Err
                    },
                }
            } else if tag == 2 {
                match sp_u64(bytes@, p1) {
                    None => r is Err,
                    Some((n, p2)) => match sp_rows(bytes@, p2, n as nat) {
                        None => r is Err,
                        Some((rows, q)) => if q == bytes@.len() {
                            r matches Ok(m) && m matches MessageFromServer::LeaderBoard(lb)
                                && lb_views(lb@) == rows
                        } else {
                            r is Err
                        },
                    },
                }
            } else if tag == 3 {
                match sp_u64(bytes@, p1) {
                    None => r is Err,
                    Some((np, p2)) => match sp_players(bytes@, p2, np as nat) {
                        None => r is Err,
                        Some((ps, p3)) => match sp_u64(bytes@, p3) {
                            None => r is Err,
                            Some((nf, p4)) => match sp_pos_seq(bytes@, p4, nf as nat) {
                                None => r is Err,
                                Some((fs, q)) => if q == bytes@.len() {
                                    r matches Ok(m) && m matches MessageFromServer::SyncData(d)
                                        && players_views(d.players@) == ps && d.foods@ == fs
                                } else {
                                    r is Err
                                },
                            },
                        },
                    },
                }
            } else {
                r is Err
            },
        },
{
    let (tag, p1) = match read_u64(bytes, 0) {
        None => {
            return Err(DecodeError);
        },
        Some(t) => t,
    };
    if tag == 1 {
        let (id, q) = match read_str(bytes, p1) {
            None => {
                return Err(DecodeError);
            },
            Some(t) => t,
        };
        if q != bytes.len() {
            return Err(DecodeError);
        }
        Ok(MessageFromServer::OnConnected(id))
    } else if tag == 2 {
        let (n, p2) = match read_u64(bytes, p1) {
            None => {
                return Err(DecodeError);
            },
            Some(t) => t,
        };
        let (rows, q) = match read_rows(bytes, p2, n) {
            None => {
                return Err(DecodeError);
            },
            Some(t) => t,
        };
        if q != bytes.len() {
            return Err(DecodeError);
        }
        Ok(MessageFromServer::LeaderBoard(LeaderBoard(rows)))
    } else if tag == 3 {
        let (np, p2) = match read_u64(bytes, p1) {
            None => {
                return Err(DecodeError);
            },
            Some(t) => t,
        };
        let (players, p3) = match read_players(bytes, p2, np) {
            None => {
                return Err(DecodeError);
            },
            Some(t) => t,
        };
        let (nf, p4) = match read_u64(bytes, p3) {
            None => {
                return Err(DecodeError);
            },
            Some(t) => t,
        };
        let (foods, q) = match read_pos_seq(bytes, p4, nf) {
            None => {
                return Err(DecodeError);
            },
            Some(t) => t,
        };
        if q != bytes.len() {
            return Err(DecodeError);
        }
        Ok(MessageFromServer::SyncData(SyncData { players, foods }))
    } else {
        Err(DecodeError)
    }
}


/// Splitting a known slice of a frame into its two parts.
proof fn lemma_split_slice(s: Seq<u8>, p: int, a: Seq<u8>, b: Seq<u8>)
    requires
        0 <= p,
        p + a.len() + b.len() <= s.len(),
        s.subrange(p, p + a.len() + b.len()) == a + b,
    ensures
        s.subrange(p, p + a.len()) == a,
        s.subrange(p + a.len(), p + a.len() + b.len()) == b,
{
    assert forall|t: int| 0 <= t < a.len() implies #[trigger] s.subrange(p, p + a.len())[t]
        == a[t] by {
        assert(s.subrange(p, p + a.len() + b.len())[t] == (a + b)[t]);
    }
    assert(s.subrange(p, p + a.len()) =~= a);
    assert forall|t: int| 0 <= t < b.len() implies #[trigger] s.subrange(
        p + a.len(),
        p + a.len() + b.len(),
    )[t] == b[t] by {
        assert(s.subrange(p, p + a.len() + b.len())[a.len() + t] == s[p + a.len() + t]);
        assert(s.subrange(p + a.len(), p + a.len() + b.len())[t] == s[p + a.len() + t]);
        assert((a + b)[a.len() + t] == b[t]);
    }
    assert(s.subrange(p + a.len(), p + a.len() + b.len()) =~= b);
}

proof fn lemma_enc_pos_seq_len(fs: Seq<Position>)
    ensures
        enc_pos_seq(fs).len() == 16 * fs.len(),
    decreases fs.len(),
{
    if fs.len() > 0 {
        lemma_enc_pos_seq_len(fs.drop_first());
        lemma_le_bytes_len(fs[0].x as u64 as int, 8);
        lemma_le_bytes_len(fs[0].y as u64 as int, 8);
    }
}

/// A written run of in-arena positions parses back to itself.
proof fn lemma_parse_enc_pos_seq(s: Seq<u8>, p: int, fs: Seq<Position>)
    requires
        0 <= p,
        positions_in_arena(fs),
        p + enc_pos_seq(fs).len() <= s.len(),
        s.subrange(p, p + enc_pos_seq(fs).len()) == enc_pos_seq(fs),
    ensures
        sp_pos_seq(s, p, fs.len()) == Some((fs, p + enc_pos_seq(fs).len())),
    decreases fs.len(),
{
    if fs.len() > 0 {
        let c = fs[0];
        assert(c.in_arena());
        lemma_le_bytes_len(c.x as u64 as int, 8);
        lemma_le_bytes_len(c.y as u64 as int, 8);
        lemma_enc_pos_seq_len(fs);
        lemma_enc_pos_seq_len(fs.drop_first());
        assert(enc_pos_seq(fs) =~= enc_pos(c) + enc_pos_seq(fs.drop_first()));
        lemma_split_slice(s, p, enc_pos(c), enc_pos_seq(fs.drop_first()));
        assert(enc_pos(c) =~= enc_u64(c.x as u64) + enc_u64(c.y as u64));
        lemma_split_slice(s, p, enc_u64(c.x as u64), enc_u64(c.y as u64));
        lemma_parse_enc_u64(s, p, c.x as u64);
        lemma_parse_enc_u64(s, p + 8, c.y as u64);
        assert((c.x as u64) < crate::ARENA_WIDTH && (c.y as u64) < crate::ARENA_HEIGHT);
        assert((c.x as u64) as i32 == c.x && (c.y as u64) as i32 == c.y);
        assert(sp_pos(s, p) == Some((c, p + 16)));
        assert(forall|t: int|
            0 <= t < fs.drop_first().len() ==> (#[trigger] fs.drop_first()[t]) == fs[t + 1]);
        lemma_parse_enc_pos_seq(s, p + 16, fs.drop_first());
        assert(seq![c] + fs.drop_first() =~= fs);
    }
}

/// A written run of leaderboard rows parses back to itself.
proof fn lemma_parse_enc_rows(s: Seq<u8>, p: int, rows: Seq<(Seq<char>, int)>)
    requires
        0 <= p,
        forall|t: int|
            0 <= t < rows.len() ==> (#[trigger] rows[t]).0.len() < 0x1_0000_0000_0000_0000,
        forall|t: int| 0 <= t < rows.len() ==> 0 <= (#[trigger] rows[t]).1 <= usize::MAX,
        p + enc_rows(rows).len() <= s.len(),
        s.subrange(p, p + enc_rows(rows).len()) == enc_rows(rows),
    ensures
        sp_rows(s, p, rows.len()) == Some((rows, p + enc_rows(rows).len())),
    decreases rows.len(),
{
    if rows.len() > 0 {
        let row = rows[0];
        lemma_le_bytes_len(row.0.len() as u64 as int, 8);
        lemma_le_bytes_len(row.1 as u64 as int, 8);
        lemma_enc_chars_len(row.0);
        assert(enc_rows(rows) =~= enc_row(row) + enc_rows(rows.drop_first()));
        lemma_split_slice(s, p, enc_row(row), enc_rows(rows.drop_first()));
        assert(enc_row(row) =~= enc_str(row.0) + enc_u64(row.1 as u64));
        lemma_split_slice(s, p, enc_str(row.0), enc_u64(row.1 as u64));
        let l1: int = 8 + 8 * (row.0.len() as int);
        assert(enc_str(row.0).len() == l1);
        lemma_parse_enc_str(s, p, row.0);
        lemma_parse_enc_u64(s, p + l1, row.1 as u64);
        assert((row.1 as u64) as int == row.1);
        assert(sp_row(s, p) == Some((row, p + l1 + 8)));
        assert(forall|t: int|
            0 <= t < rows.drop_first().len() ==> (#[trigger] rows.drop_first()[t]) == rows[t
                + 1]);
        lemma_parse_enc_rows(s, p + l1 + 8, rows.drop_first());
        assert(seq![row] + rows.drop_first() =~= rows);
    }
}

/// A written run of snapshot rows parses back to itself.
proof fn lemma_parse_enc_players(s: Seq<u8>, p: int, ps: Seq<(Seq<char>, Seq<Position>)>)
    requires
        0 <= p,
        forall|t: int|
            0 <= t < ps.len() ==> (#[trigger] ps[t]).0.len() < 0x1_0000_0000_0000_0000,
        forall|t: int|
            0 <= t < ps.len() ==> (#[trigger] ps[t]).1.len() < 0x1_0000_0000_0000_0000,
        forall|t: int| 0 <= t < ps.len() ==> positions_in_arena((#[trigger] ps[t]).1),
        p + enc_players(ps).len() <= s.len(),
        s.subrange(p, p + enc_players(ps).len()) == enc_players(ps),
    ensures
        sp_players(s, p, ps.len()) == Some((ps, p + enc_players(ps).len())),
    decreases ps.len(),
{
    if ps.len() > 0 {
        let row = ps[0];
        lemma_le_bytes_len(row.0.len() as u64 as int, 8);
        lemma_le_bytes_len(row.1.len() as u64 as int, 8);
        lemma_enc_chars_len(row.0);
        lemma_enc_pos_seq_len(row.1);
        assert(enc_players(ps) =~= enc_player(row) + enc_players(ps.drop_first()));
        lemma_split_slice(s, p, enc_player(row), enc_players(ps.drop_first()));
        let l1: int = 8 + 8 * (row.0.len() as int);
        assert(enc_player(row) =~= enc_str(row.0) + (enc_u64(row.1.len() as u64) + enc_pos_seq(
            row.1,
        )));
        lemma_split_slice(
            s,
            p,
            enc_str(row.0),
            enc_u64(row.1.len() as u64) + enc_pos_seq(row.1),
        );
        lemma_split_slice(s, p + l1, enc_u64(row.1.len() as u64), enc_pos_seq(row.1));
        lemma_parse_enc_str(s, p, row.0);
        lemma_parse_enc_u64(s, p + l1, row.1.len() as u64);
        assert((row.1.len() as u64) as nat == row.1.len());
        lemma_parse_enc_pos_seq(s, p + l1 + 8, row.1);
        assert(sp_player(s, p) == Some((row, p + l1 + 8 + 16 * row.1.len())));
        assert(forall|t: int|
            0 <= t < ps.drop_first().len() ==> (#[trigger] ps.drop_first()[t]) == ps[t + 1]);
        lemma_parse_enc_players(s, p + l1 + 8 + 16 * row.1.len(), ps.drop_first());
        assert(seq![row] + ps.drop_first() =~= ps);
    }
}

/// Round trip for the handshake reply: its frame parses back to tag one and
/// the same id, consuming the whole frame.
pub proof fn lemma_server_connected_round_trip(id: Seq<char>)
    requires
        id.len() < 0x1_0000_0000_0000_0000,
    ensures
        ({
            let s = enc_server_connected(id);
            &&& sp_u64(s, 0) == Some((1u64, 8int))
            &&& sp_str(s, 8) == Some((id, s.len() as int))
        }),
{
    let s = enc_server_connected(id);
    lemma_le_bytes_len(1, 8);
    lemma_le_bytes_len(id.len() as u64 as int, 8);
    lemma_enc_chars_len(id);
    assert(s =~= enc_u64(1) + enc_str(id));
    assert(s.subrange(0, s.len() as int) =~= s);
    lemma_split_slice(s, 0, enc_u64(1), enc_str(id));
    lemma_parse_enc_u64(s, 0, 1);
    lemma_parse_enc_str(s, 8, id);
}

/// Round trip for the ranking: its frame parses back to tag two and the same
/// rows, consuming the whole frame.
pub proof fn lemma_server_leader_board_round_trip(rows: Seq<(Seq<char>, int)>)
    requires
        rows.len() < 0x1_0000_0000_0000_0000,
        forall|t: int|
            0 <= t < rows.len() ==> (#[trigger] rows[t]).0.len() < 0x1_0000_0000_0000_0000,
        forall|t: int| 0 <= t < rows.len() ==> 0 <= (#[trigger] rows[t]).1 <= usize::MAX,
    ensures
        ({
            let s = enc_server_leader_board(rows);
            &&& sp_u64(s, 0) == Some((2u64, 8int))
            &&& sp_u64(s, 8) == Some((rows.len() as u64, 16int))
            &&& sp_rows(s, 16, rows.len()) == Some((rows, s.len() as int))
        }),
{
    let s = enc_server_leader_board(rows);
    lemma_le_bytes_len(2, 8);
    lemma_le_bytes_len(rows.len() as u64 as int, 8);
    assert(s =~= enc_u64(2) + (enc_u64(rows.len() as u64) + enc_rows(rows)));
    assert(s.subrange(0, s.len() as int) =~= s);
    lemma_split_slice(s, 0, enc_u64(2), enc_u64(rows.len() as u64) + enc_rows(rows));
    lemma_split_slice(s, 8, enc_u64(rows.len() as u64), enc_rows(rows));
    lemma_parse_enc_u64(s, 0, 2);
    lemma_parse_enc_u64(s, 8, rows.len() as u64);
    lemma_parse_enc_rows(s, 16, rows);
}

/// Round trip for the snapshot: its frame parses back to tag three, the same
/// player rows and the same food cells, consuming the whole frame.
#[verifier::rlimit(60)]
pub proof fn lemma_server_sync_round_trip(ps: Seq<(Seq<char>, Seq<Position>)>, fs: Seq<Position>)
    requires
        ps.len() < 0x1_0000_0000_0000_0000,
        fs.len() < 0x1_0000_0000_0000_0000,
        forall|t: int|
            0 <= t < ps.len() ==> (#[trigger] ps[t]).0.len() < 0x1_0000_0000_0000_0000,
        forall|t: int|
            0 <= t < ps.len() ==> (#[trigger] ps[t]).1.len() < 0x1_0000_0000_0000_0000,
        forall|t: int| 0 <= t < ps.len() ==> positions_in_arena((#[trigger] ps[t]).1),
        positions_in_arena(fs),
    ensures
        ({
            let s = enc_server_sync(ps, fs);
            let pp: int = 16 + (enc_players(ps).len() as int);
            &&& sp_u64(s, 0) == Some((3u64, 8int))
            &&& sp_u64(s, 8) == Some((ps.len() as u64, 16int))
            &&& sp_players(s, 16, ps.len()) == Some((ps, pp))
            &&& sp_u64(s, pp) == Some((fs.len() as u64, pp + 8))
            &&& sp_pos_seq(s, pp + 8, fs.len()) == Some((fs, s.len() as int))
        }),
{
    let s = enc_server_sync(ps, fs);
    let pp: int = 16 + (enc_players(ps).len() as int);
    lemma_le_bytes_len(3, 8);
    lemma_le_bytes_len(ps.len() as u64 as int, 8);
    lemma_le_bytes_len(fs.len() as u64 as int, 8);
    lemma_enc_pos_seq_len(fs);
    assert(s =~= enc_u64(3) + (enc_u64(ps.len() as u64) + (enc_players(ps) + (enc_u64(
        fs.len() as u64,
    ) + enc_pos_seq(fs)))));
    assert(s.subrange(0, s.len() as int) =~= s);
    lemma_split_slice(
        s,
        0,
        enc_u64(3),
        enc_u64(ps.len() as u64) + (enc_players(ps) + (enc_u64(fs.len() as u64) + enc_pos_seq(
            fs,
        ))),
    );
    lemma_split_slice(
        s,
        8,
        enc_u64(ps.len() as u64),
        enc_players(ps) + (enc_u64(fs.len() as u64) + enc_pos_seq(fs)),
    );
    lemma_split_slice(s, 16, enc_players(ps), enc_u64(fs.len() as u64) + enc_pos_seq(fs));
    lemma_split_slice(s, pp, enc_u64(fs.len() as u64), enc_pos_seq(fs));
    lemma_parse_enc_u64(s, 0, 3);
    lemma_parse_enc_u64(s, 8, ps.len() as u64);
    lemma_parse_enc_players(s, 16, ps);
    lemma_parse_enc_u64(s, pp, fs.len() as u64);
    lemma_parse_enc_pos_seq(s, pp + 8, fs);
}

} // verus!
