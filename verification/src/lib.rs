pub mod error;
pub mod reader;
pub mod socket;
pub mod stream;
pub mod utf8;

use vstd::prelude::*;

use crate::error::ProbeError;
use crate::reader::{be_u32, line_outcome, read_byte, read_bytes, read_line, read_u32};
use crate::stream::ByteStream;
use crate::utf8::{decode_utf8, utf8_decode};

verus! {

/// Longest identification line the reader accepts, per RFC 4253.
pub const SSH_IDENTIFIER_MAX_LINE_LEN: usize = 255;

/// How many non-matching lines may be skipped ahead of the identification
/// line before the reader gives up.
pub const SSH_MAX_LINES_BEFORE_IDENTIFIER: usize = 5;

/// Message code of the key-exchange-initialization packet.
pub const SSH_MSG_KEXINIT: u8 = 20;

/// Sanity ceiling on a declared packet length, in bytes.
pub const SSH_MAX_PACKET_LEN: u32 = 35000;

/// The byte that separates the tokens of a name-list.
pub const NAME_SEPARATOR: u8 = 44;

/// The characters open with the protocol prefix "SSH-".
pub open spec fn has_ssh_prefix(cs: Seq<char>) -> bool {
    cs.len() >= 4 && cs[0] == 'S' && cs[1] == 'S' && cs[2] == 'H' && cs[3] == '-'
}

/// What reading the identification line yields when the line about to be read
/// is the `index`-th of the stream, counting from 1: the first line carrying
/// the SSH prefix together with the unread rest, or the error. A line past
/// the skip allowance is still consumed, but fails the read even where it
/// carries the prefix.
pub open spec fn identifier_outcome(s: Seq<u8>, index: nat) -> Result<
    (Seq<char>, Seq<u8>),
    ProbeError,
>
    decreases SSH_MAX_LINES_BEFORE_IDENTIFIER + 1 - index,
{
    match line_outcome(s, SSH_IDENTIFIER_MAX_LINE_LEN as int) {
        Err(e) => Err(e),
        Ok((line, rest)) => if index > SSH_MAX_LINES_BEFORE_IDENTIFIER {
            Err(ProbeError::TooManyLines)
        } else if has_ssh_prefix(line) {
            Ok((line, rest))
        } else {
            identifier_outcome(rest, index + 1)
        },
    }
}

/// Whether the line begins with the protocol prefix "SSH-".
fn line_has_ssh_prefix(line: &String) -> (r: bool)
    ensures
        r == has_ssh_prefix(line@),
{
    let s = line.as_str();
    if s.unicode_len() < 4 {
        return false;
    }
    s.get_char(0) == 'S' && s.get_char(1) == 'S' && s.get_char(2) == 'H' && s.get_char(3) == '-'
}

/// Reads the SSH server identification line from the stream: lines are read
/// and skipped until one begins with "SSH-", and at most 5 lines may be
/// skipped before the reader gives up. RFC 4253, Section 4.2.
#[verifier::loop_isolation(false)]
pub fn read_identifier(stream: &mut ByteStream) -> (r: Result<String, ProbeError>)
    requires
        old(stream).wf(),
    ensures
        final(stream).wf(),
        match r {
            Ok(line) => identifier_outcome(old(stream)@, 1) == Ok::<
                (Seq<char>, Seq<u8>),
                ProbeError,
            >((line@, final(stream)@)),
            Err(e) => identifier_outcome(old(stream)@, 1) == Err::<
                (Seq<char>, Seq<u8>),
                ProbeError,
            >(e),
        },
{
    let ghost s0 = stream@;
    let mut index: usize = 1;
    loop
        invariant
            stream.wf(),
            1 <= index <= SSH_MAX_LINES_BEFORE_IDENTIFIER + 1,
            identifier_outcome(s0, 1) == identifier_outcome(stream@, index as nat),
        decreases SSH_MAX_LINES_BEFORE_IDENTIFIER + 1 - index,
    {
        let ghost pre = stream@;
        match read_line(stream, SSH_IDENTIFIER_MAX_LINE_LEN) {
            Err(e) => {
                proof {
                    assert(identifier_outcome(pre, index as nat) == Err::<
                        (Seq<char>, Seq<u8>),
                        ProbeError,
                    >(e));
                }
                return Err(e);
            },
            Ok(line) => {
                if index > SSH_MAX_LINES_BEFORE_IDENTIFIER {
                    return Err(ProbeError::TooManyLines);
                }
                if line_has_ssh_prefix(&line) {
                    return Ok(line);
                }
                index = index + 1;
            },
        }
    }
}

/// The comma-separated tokens of a byte sequence: a sequence with no
/// separator is one token, and every separator opens a further one, so an
/// empty sequence is a single empty token.
pub open spec fn split_on_commas(s: Seq<u8>) -> Seq<Seq<u8>>
    decreases s.len(),
{
    if s.len() == 0 {
        seq![Seq::<u8>::empty()]
    } else if s[0] == NAME_SEPARATOR {
        seq![Seq::<u8>::empty()] + split_on_commas(s.drop_first())
    } else {
        let rest = split_on_commas(s.drop_first());
        seq![seq![s[0]] + rest[0]] + rest.skip(1)
    }
}

/// Splitting yields at least one token, whatever the input.
proof fn lemma_split_on_commas_nonempty(s: Seq<u8>)
    ensures
        split_on_commas(s).len() >= 1,
    decreases s.len(),
{
    if s.len() > 0 {
        lemma_split_on_commas_nonempty(s.drop_first());
    }
}

/// One scanning step: how the tokens of `s.skip(i)` relate to the tokens of
/// `s.skip(i + 1)`, by the byte at `i`.
proof fn lemma_split_step(s: Seq<u8>, i: int)
    requires
        0 <= i < s.len(),
    ensures
        s[i] == NAME_SEPARATOR ==> split_on_commas(s.skip(i)) == seq![Seq::<u8>::empty()]
            + split_on_commas(s.skip(i + 1)),
        s[i] != NAME_SEPARATOR ==> split_on_commas(s.skip(i)) == seq![
            seq![s[i]] + split_on_commas(s.skip(i + 1))[0],
        ] + split_on_commas(s.skip(i + 1)).skip(1),
{
    assert(s.skip(i).len() == s.len() - i);
    assert(s.skip(i)[0] == s[i]);
    assert(s.skip(i).drop_first() =~= s.skip(i + 1));
}

/// Splits a byte sequence at every separator byte.
fn split_commas(bytes: &Vec<u8>) -> (r: Vec<Vec<u8>>)
    ensures
        r@.len() == split_on_commas(bytes@).len(),
        forall|k: int| 0 <= k < r@.len() ==> r@[k]@ == split_on_commas(bytes@)[k],
{
    let ghost full = split_on_commas(bytes@);
    let mut done: Vec<Vec<u8>> = Vec::new();
    let mut cur: Vec<u8> = Vec::new();
    let mut i: usize = 0;
    proof {
        assert(bytes@.skip(0) =~= bytes@);
        lemma_split_on_commas_nonempty(bytes@);
        assert(cur@ + full[0] =~= full[0]);
    }
    #[verifier::loop_isolation(false)]
    while i < bytes.len()
        invariant
            i <= bytes@.len(),
            ({
                let tail = split_on_commas(bytes@.skip(i as int));
                &&& tail.len() >= 1
                &&& full.len() == done@.len() + tail.len()
                &&& (forall|k: int| 0 <= k < done@.len() ==> full[k] == done@[k]@)
                &&& full[done@.len() as int] == cur@ + tail[0]
                &&& (forall|k: int|
                    1 <= k < tail.len() ==> full[done@.len() + k] == tail[k])
            }),
        decreases bytes@.len() - i,
    {
        let ghost tail = split_on_commas(bytes@.skip(i as int));
        let ghost tail2 = split_on_commas(bytes@.skip(i as int + 1));
        let b = bytes[i];
        proof {
            lemma_split_step(bytes@, i as int);
            lemma_split_on_commas_nonempty(bytes@.skip(i as int + 1));
        }
        if b == NAME_SEPARATOR {
            proof {
                assert(tail[0] =~= Seq::<u8>::empty());
                assert(cur@ + tail[0] =~= cur@);
                assert(tail[1] == tail2[0]);
                assert(Seq::<u8>::empty() + tail2[0] =~= tail2[0]);
                assert(forall|k: int| 1 <= k < tail2.len() ==> tail[k + 1] == tail2[k]);
            }
            done.push(cur);
            cur = Vec::new();
        } else {
            proof {
                assert(tail[0] == seq![b] + tail2[0]);
                assert(cur@ + (seq![b] + tail2[0]) =~= cur@.push(b) + tail2[0]);
                assert forall|k: int| 1 <= k < tail2.len() implies tail[k] == tail2[k] by {
                    assert(tail[k] == tail2.skip(1)[k - 1]);
                }
            }
            cur.push(b);
        }
        i = i + 1;
    }
    proof {
        assert(bytes@.skip(bytes@.len() as int) =~= Seq::<u8>::empty());
        assert(split_on_commas(bytes@.skip(i as int))[0] =~= Seq::<u8>::empty());
        assert(cur@ + Seq::<u8>::empty() =~= cur@);
    }
    done.push(cur);
    done
}

/// What decoding one wire name-list from the front of `s` yields: the decoded
/// tokens in wire order and the unread rest, or the error. The wire form is a
/// four-byte big-endian length followed by that many bytes of UTF-8 text,
/// with tokens separated by commas.
pub open spec fn name_list_outcome(s: Seq<u8>) -> Result<(Seq<Seq<char>>, Seq<u8>), ProbeError> {
    if s.len() < 4 {
        Err(ProbeError::UnexpectedEndOfStream)
    } else {
        let len = be_u32(s[0], s[1], s[2], s[3]);
        if s.len() - 4 < len {
            Err(ProbeError::UnexpectedEndOfStream)
        } else {
            let tokens = split_on_commas(s.skip(4).take(len));
            if forall|k: int| 0 <= k < tokens.len() ==> (#[trigger] utf8_decode(tokens[k])) is Some {
                Ok((Seq::new(tokens.len(), |k: int| utf8_decode(tokens[k]).unwrap()), s.skip(4 + len)))
            } else {
                Err(ProbeError::InvalidEncoding)
            }
        }
    }
}

/// Reads one name-list: a four-byte big-endian length, that many raw bytes,
/// each comma-separated token decoded as UTF-8. RFC 4251, Section 5.
#[verifier::loop_isolation(false)]
pub fn read_name_list(stream: &mut ByteStream) -> (r: Result<Vec<String>, ProbeError>)
    requires
        old(stream).wf(),
    ensures
        final(stream).wf(),
        match r {
            Ok(names) => name_list_outcome(old(stream)@) == Ok::<
                (Seq<Seq<char>>, Seq<u8>),
                ProbeError,
            >((names.deep_view(), final(stream)@)),
            Err(e) => name_list_outcome(old(stream)@) == Err::<
                (Seq<Seq<char>>, Seq<u8>),
                ProbeError,
            >(e),
        },
{
    let ghost s0 = stream@;
    let len = match read_u32(stream) {
        Ok(v) => v,
        Err(e) => {
            return Err(e);
        },
    };
    let raw = match read_bytes(stream, len as usize) {
        Ok(b) => b,
        Err(e) => {
            return Err(e);
        },
    };
    proof {
        assert(raw@ == s0.skip(4).take(len as int));
        assert(stream@ =~= s0.skip(4 + len as int));
    }
    let tokens = split_commas(&raw);
    let ghost toks = split_on_commas(raw@);
    let mut names: Vec<String> = Vec::new();
    let mut i: usize = 0;
    while i < tokens.len()
        invariant
            i <= tokens@.len(),
            names@.len() == i,
            forall|k: int|
                0 <= k < i as int ==> #[trigger] utf8_decode(toks[k]) == Some(names@[k]@),
        decreases tokens@.len() - i,
    {
        match decode_utf8(&tokens[i]) {
            Some(name) => {
                names.push(name);
            },
            None => {
                proof {
                    assert(utf8_decode(toks[i as int]) is None);
                }
                return Err(ProbeError::InvalidEncoding);
            },
        }
        i = i + 1;
    }
    proof {
        assert(names.deep_view() =~~= Seq::new(
            toks.len(),
            |k: int| utf8_decode(toks[k]).unwrap(),
        ));
    }
    Ok(names)
}

/// The decoded payload of one SSH_MSG_KEXINIT packet: the eight name-lists in
/// the order the RFC fixes. Created whole by a successful decode and immutable
/// thereafter; no field is returned on a partial failure.
#[derive(Debug)]
pub struct KexData {
    pub key_exchange: Vec<String>,
    pub host_keys: Vec<String>,
    pub encryption_cts: Vec<String>,
    pub encryption_stc: Vec<String>,
    pub mac_cts: Vec<String>,
    pub mac_stc: Vec<String>,
    pub compression_cts: Vec<String>,
    pub compression_stc: Vec<String>,
}

impl KexData {
    /// The eight algorithm name-lists, in wire order.
    pub open spec fn lists(self) -> Seq<Seq<Seq<char>>> {
        seq![
            self.key_exchange.deep_view(),
            self.host_keys.deep_view(),
            self.encryption_cts.deep_view(),
            self.encryption_stc.deep_view(),
            self.mac_cts.deep_view(),
            self.mac_stc.deep_view(),
            self.compression_cts.deep_view(),
            self.compression_stc.deep_view(),
        ]
    }
}

/// What decoding `count` consecutive name-lists from the front of `s` yields:
/// the lists in order and the unread rest, or the first error.
pub open spec fn name_lists_outcome(s: Seq<u8>, count: nat) -> Result<
    (Seq<Seq<Seq<char>>>, Seq<u8>),
    ProbeError,
>
    decreases count,
{
    if count == 0 {
        Ok((Seq::empty(), s))
    } else {
        match name_list_outcome(s) {
            Err(e) => Err(e),
            Ok((names, rest)) => match name_lists_outcome(rest, (count - 1) as nat) {
                Err(e) => Err(e),
                Ok((more, rest2)) => Ok((seq![names] + more, rest2)),
            },
        }
    }
}

/// What decoding the KEXINIT preamble and its eight name-lists from the front
/// of `s` yields. The declared packet length is bounded by the sanity
/// ceiling, the message type must be SSH_MSG_KEXINIT, and the 16 cookie bytes
/// are consumed unread; no cross-check is made between the declared length
/// and the bytes the name-lists consume.
pub open spec fn kex_outcome(s: Seq<u8>) -> Result<(Seq<Seq<Seq<char>>>, Seq<u8>), ProbeError> {
    if s.len() < 4 {
        Err(ProbeError::UnexpectedEndOfStream)
    } else if be_u32(s[0], s[1], s[2], s[3]) > SSH_MAX_PACKET_LEN as int {
        Err(ProbeError::PacketTooLarge)
    } else if s.len() < 5 {
        Err(ProbeError::UnexpectedEndOfStream)
    } else if s[4] != SSH_MSG_KEXINIT {
        Err(ProbeError::UnexpectedMessage)
    } else if s.len() < 21 {
        Err(ProbeError::UnexpectedEndOfStream)
    } else {
        name_lists_outcome(s.skip(21), 8)
    }
}

/// Reads one SSH_MSG_KEXINIT packet and returns its payload: packet length,
/// message type and cookie, then the eight name-lists in wire order. A
/// declared length over the ceiling fails before anything further is
/// consumed. RFC 4253, Section 6 and Section 7.1.
#[verifier::loop_isolation(false)]
pub fn read_kex_payload(stream: &mut ByteStream) -> (r: Result<KexData, ProbeError>)
    requires
        old(stream).wf(),
    ensures
        final(stream).wf(),
        match r {
            Ok(kex) => kex_outcome(old(stream)@) == Ok::<
                (Seq<Seq<Seq<char>>>, Seq<u8>),
                ProbeError,
            >((kex.lists(), final(stream)@)),
            Err(e) => {
                &&& kex_outcome(old(stream)@) == Err::<
                    (Seq<Seq<Seq<char>>>, Seq<u8>),
                    ProbeError,
                >(e)
                &&& (e == ProbeError::PacketTooLarge ==> final(stream)@ == old(stream)@.skip(4))
            },
        },
{
    let ghost s0 = stream@;
    let packet_len = match read_u32(stream) {
        Ok(v) => v,
        Err(e) => {
            return Err(e);
        },
    };
    if packet_len > SSH_MAX_PACKET_LEN {
        return Err(ProbeError::PacketTooLarge);
    }
    let message_type = match read_byte(stream) {
        Ok(b) => b,
        Err(e) => {
            return Err(e);
        },
    };
    if message_type != SSH_MSG_KEXINIT {
        return Err(ProbeError::UnexpectedMessage);
    }
    // The cookie: 16 random bytes, read and discarded.
    let _cookie = match read_bytes(stream, 16) {
        Ok(c) => c,
        Err(e) => {
            return Err(e);
        },
    };
    proof {
        assert(stream@ =~= s0.skip(21));
    }
    let mut lists: Vec<Vec<String>> = Vec::new();
    while lists.len() < 8
        invariant
            stream.wf(),
            lists@.len() <= 8,
            name_lists_outcome(s0.skip(21), 8) == (match name_lists_outcome(
                stream@,
                (8 - lists@.len()) as nat,
            ) {
                Ok((more, rest)) => Ok::<(Seq<Seq<Seq<char>>>, Seq<u8>), ProbeError>(
                    (lists.deep_view() + more, rest),
                ),
                Err(e) => Err::<(Seq<Seq<Seq<char>>>, Seq<u8>), ProbeError>(e),
            }),
        decreases 8 - lists@.len(),
    {
        let ghost pre = stream@;
        let ghost ldv = lists.deep_view();
        match read_name_list(stream) {
            Ok(names) => {
                proof {
                    let t = name_lists_outcome(stream@, (7 - lists@.len()) as nat);
                    assert(name_lists_outcome(pre, (8 - lists@.len()) as nat) == (match t {
                        Ok((more, rest)) => Ok::<(Seq<Seq<Seq<char>>>, Seq<u8>), ProbeError>(
                            (seq![names.deep_view()] + more, rest),
                        ),
                        Err(e) => Err::<(Seq<Seq<Seq<char>>>, Seq<u8>), ProbeError>(e),
                    }));
                    if t is Ok {
                        let more = t->Ok_0.0;
                        assert(ldv + (seq![names.deep_view()] + more) =~~= ldv.push(
                            names.deep_view(),
                        ) + more);
                    }
                }
                lists.push(names);
                proof {
                    assert(lists.deep_view() =~~= ldv.push(names.deep_view()));
                }
            },
            Err(e) => {
                return Err(e);
            },
        }
    }
    let ghost l8 = lists.deep_view();
    proof {
        assert(l8 + Seq::<Seq<Seq<char>>>::empty() =~~= l8);
    }
    let compression_stc = lists.pop().unwrap();
    let compression_cts = lists.pop().unwrap();
    let mac_stc = lists.pop().unwrap();
    let mac_cts = lists.pop().unwrap();
    let encryption_stc = lists.pop().unwrap();
    let encryption_cts = lists.pop().unwrap();
    let host_keys = lists.pop().unwrap();
    let key_exchange = lists.pop().unwrap();
    let kex = KexData {
        key_exchange,
        host_keys,
        encryption_cts,
        encryption_stc,
        mac_cts,
        mac_stc,
        compression_cts,
        compression_stc,
    };
    proof {
        assert(kex.lists() =~~= l8);
    }
    Ok(kex)
}

/// A line the identifier reader hands back always carries the SSH prefix,
/// whatever the stream holds and however many lines were skipped before it.
pub proof fn lemma_identifier_has_prefix(s: Seq<u8>, index: nat)
    requires
        identifier_outcome(s, index) is Ok,
    ensures
        has_ssh_prefix(identifier_outcome(s, index)->Ok_0.0),
    decreases SSH_MAX_LINES_BEFORE_IDENTIFIER + 1 - index,
{
    match line_outcome(s, SSH_IDENTIFIER_MAX_LINE_LEN as int) {
        Err(_) => {
        },
        Ok((line, rest)) => {
            if index <= SSH_MAX_LINES_BEFORE_IDENTIFIER && !has_ssh_prefix(line) {
                lemma_identifier_has_prefix(rest, index + 1);
            }
        },
    }
}

/// A successfully decoded name-list holds at least one token: an empty wire
/// string is a single empty name, never an empty sequence.
pub proof fn lemma_name_list_never_empty(s: Seq<u8>)
    requires
        name_list_outcome(s) is Ok,
    ensures
        name_list_outcome(s)->Ok_0.0.len() >= 1,
{
    let len = be_u32(s[0], s[1], s[2], s[3]);
    lemma_split_on_commas_nonempty(s.skip(4).take(len));
}

/// Decoding is a function of the stream's bytes alone: two streams over equal
/// buffers yield field-for-field identical identification lines and KEXINIT
/// payloads, whatever else the two stream instances are.
pub proof fn lemma_decode_deterministic(s1: Seq<u8>, s2: Seq<u8>)
    requires
        s1 == s2,
    ensures
        identifier_outcome(s1, 1) == identifier_outcome(s2, 1),
        kex_outcome(s1) == kex_outcome(s2),
{
}

} // verus!
