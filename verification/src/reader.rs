use vstd::prelude::*;

use crate::error::ProbeError;
use crate::stream::ByteStream;
use crate::utf8::{decode_utf8, utf8_decode};

verus! {

/// Carriage return, the first byte of the line terminator.
pub const CR: u8 = 13;

/// Line feed, the second byte of the line terminator.
pub const LF: u8 = 10;

/// The stream `s` opens with a line of `n` content bytes: bytes `n` and
/// `n + 1` are the CR LF terminator and no line feed comes earlier.
pub open spec fn line_at(s: Seq<u8>, n: int) -> bool {
    &&& 0 <= n
    &&& n + 2 <= s.len()
    &&& s[n] == CR
    &&& s[n + 1] == LF
    &&& forall|j: int| 0 <= j < n ==> s[j] != LF
}

/// Some CR LF-terminated line of at most `limit` content bytes opens the stream.
pub open spec fn has_line_within(s: Seq<u8>, limit: int) -> bool {
    exists|n: int| 0 <= n <= limit && line_at(s, n)
}

/// The first line feed of `s` sits at index `i`, with no carriage return
/// directly before it.
pub open spec fn lone_lf_at(s: Seq<u8>, i: int) -> bool {
    &&& 0 <= i < s.len()
    &&& s[i] == LF
    &&& forall|j: int| 0 <= j < i ==> s[j] != LF
    &&& i == 0 || s[i - 1] != CR
}

/// The first line feed of `s` sits at an index up to `limit` and has no
/// carriage return directly before it.
pub open spec fn lf_without_cr_within(s: Seq<u8>, limit: int) -> bool {
    exists|i: int| i <= limit && lone_lf_at(s, i)
}

/// No line feed anywhere in `s`.
pub open spec fn no_lf(s: Seq<u8>) -> bool {
    forall|j: int| 0 <= j < s.len() ==> s[j] != LF
}

/// The stream runs out before either a terminator or the length limit is hit.
pub open spec fn ends_before_line(s: Seq<u8>, limit: int) -> bool {
    no_lf(s) && (s.len() <= limit || (s.len() == limit + 1 && s[limit] == CR))
}

/// What reading one CR LF-terminated line of at most `limit` content bytes
/// from the front of `s` yields: the decoded content and the unread rest, or
/// the error. Exactly one of the four conditions holds of any stream.
pub open spec fn line_outcome(s: Seq<u8>, limit: int) -> Result<
    (Seq<char>, Seq<u8>),
    ProbeError,
> {
    if has_line_within(s, limit) {
        let n = choose|n: int| 0 <= n <= limit && line_at(s, n);
        match utf8_decode(s.take(n)) {
            Some(cs) => Ok((cs, s.skip(n + 2))),
            None => Err(ProbeError::InvalidEncoding),
        }
    } else if lf_without_cr_within(s, limit) {
        Err(ProbeError::InvalidLineEnding)
    } else if ends_before_line(s, limit) {
        Err(ProbeError::UnexpectedEndOfStream)
    } else {
        Err(ProbeError::LineTooLong)
    }
}

/// At most one content length can front a stream as a terminated line.
pub proof fn lemma_line_at_unique(s: Seq<u8>, n1: int, n2: int)
    requires
        line_at(s, n1),
        line_at(s, n2),
    ensures
        n1 == n2,
{
    if n1 < n2 {
        assert(s[n1 + 1] == LF);
        if n1 + 1 < n2 {
            assert(s[n1 + 1] != LF);
        } else {
            assert(s[n2] == CR);
        }
    }
    if n2 < n1 {
        assert(s[n2 + 1] == LF);
        if n2 + 1 < n1 {
            assert(s[n2 + 1] != LF);
        } else {
            assert(s[n1] == CR);
        }
    }
}

/// Where the first line feed of `s` sits at `k`, the only candidate line has
/// `k - 1` content bytes.
proof fn lemma_first_lf_pins_line(s: Seq<u8>, k: int, n: int)
    requires
        0 <= k < s.len(),
        s[k] == LF,
        forall|j: int| 0 <= j < k ==> s[j] != LF,
        line_at(s, n),
    ensures
        n == k - 1,
{
    assert(s[n + 1] == LF);
    if n + 1 < k {
        assert(s[n + 1] != LF);
    }
    if k < n + 1 {
        if k < n {
            assert(s[k] != LF);
        } else {
            assert(s[n] == CR);
        }
    }
}

/// A terminated line of `n` content bytes within the limit is read back as
/// exactly those bytes, decoded: the CR LF terminator is stripped, and no
/// line feed (hence no terminator pair) sits in the content.
pub proof fn lemma_read_line_strips_terminator(s: Seq<u8>, limit: int, n: int)
    requires
        0 <= n <= limit,
        line_at(s, n),
    ensures
        line_outcome(s, limit) == match utf8_decode(s.take(n)) {
            Some(cs) => Ok::<(Seq<char>, Seq<u8>), ProbeError>((cs, s.skip(n + 2))),
            None => Err::<(Seq<char>, Seq<u8>), ProbeError>(ProbeError::InvalidEncoding),
        },
        forall|j: int| 0 <= j < n ==> #[trigger] s.take(n)[j] != LF,
        forall|j: int| 0 < j < n ==> !(s.take(n)[j - 1] == CR && #[trigger] s.take(n)[j] == LF),
{
    assert(has_line_within(s, limit));
    let n0 = choose|m: int| 0 <= m <= limit && line_at(s, m);
    lemma_line_at_unique(s, n, n0);
}

/// A line feed with no carriage return directly before it is never accepted:
/// whatever the limit, reading the line fails.
pub proof fn lemma_lone_lf_fails(s: Seq<u8>, limit: int, i: int)
    requires
        lone_lf_at(s, i),
    ensures
        line_outcome(s, limit) is Err,
{
    assert(!has_line_within(s, limit)) by {
        if has_line_within(s, limit) {
            let n = choose|n: int| 0 <= n <= limit && line_at(s, n);
            lemma_first_lf_pins_line(s, i, n);
        }
    }
}

/// Boundary, accepting side: a line of exactly `limit` content bytes before
/// its CR LF terminator is within the limit and succeeds (or fails only on
/// its encoding).
pub proof fn lemma_line_at_limit_accepted(s: Seq<u8>, limit: int)
    requires
        0 <= limit,
        line_at(s, limit),
    ensures
        line_outcome(s, limit) == match utf8_decode(s.take(limit)) {
            Some(cs) => Ok::<(Seq<char>, Seq<u8>), ProbeError>((cs, s.skip(limit + 2))),
            None => Err::<(Seq<char>, Seq<u8>), ProbeError>(ProbeError::InvalidEncoding),
        },
{
    lemma_read_line_strips_terminator(s, limit, limit);
}

/// Boundary, rejecting side: one content byte over the limit before the
/// terminator is a "line too long" failure.
pub proof fn lemma_line_over_limit_rejected(s: Seq<u8>, limit: int)
    requires
        0 <= limit,
        line_at(s, limit + 1),
    ensures
        line_outcome(s, limit) == Err::<(Seq<char>, Seq<u8>), ProbeError>(ProbeError::LineTooLong),
{
    assert(!has_line_within(s, limit)) by {
        if has_line_within(s, limit) {
            let n = choose|n: int| 0 <= n <= limit && line_at(s, n);
            lemma_line_at_unique(s, n, limit + 1);
        }
    }
    assert(!lf_without_cr_within(s, limit)) by {
        if lf_without_cr_within(s, limit) {
            let i = choose|i: int| i <= limit && lone_lf_at(s, i);
            assert(s[i] != LF);
        }
    }
    assert(s[limit + 2] == LF);
    assert(!no_lf(s));
}

/// Reads one byte, failing where the stream has ended.
pub fn read_byte(stream: &mut ByteStream) -> (r: Result<u8, ProbeError>)
    requires
        old(stream).wf(),
    ensures
        final(stream).wf(),
        match r {
            Ok(b) => old(stream)@.len() > 0 && b == old(stream)@[0]
                && final(stream)@ == old(stream)@.drop_first(),
            Err(e) => e == ProbeError::UnexpectedEndOfStream && old(stream)@.len() == 0
                && final(stream)@ == old(stream)@,
        },
{
    match stream.next_byte() {
        Some(b) => Ok(b),
        None => Err(ProbeError::UnexpectedEndOfStream),
    }
}

/// Reads exactly `amount` bytes. A stream with fewer bytes left fails; a
/// short read is never returned as partial success.
pub fn read_bytes(stream: &mut ByteStream, amount: usize) -> (r: Result<Vec<u8>, ProbeError>)
    requires
        old(stream).wf(),
    ensures
        final(stream).wf(),
        match r {
            Ok(buf) => old(stream)@.len() >= amount && buf@ == old(stream)@.take(amount as int)
                && final(stream)@ == old(stream)@.skip(amount as int),
            Err(e) => e == ProbeError::UnexpectedEndOfStream && old(stream)@.len() < amount,
        },
{
    if stream.remaining() < amount {
        return Err(ProbeError::UnexpectedEndOfStream);
    }
    let ghost s0 = stream@;
    let mut buf: Vec<u8> = Vec::new();
    while buf.len() < amount
        invariant
            stream.wf(),
            s0.len() >= amount,
            buf@.len() <= amount,
            buf@ == s0.take(buf@.len() as int),
            stream@ == s0.skip(buf@.len() as int),
        decreases amount - buf.len(),
    {
        let ghost k = buf@.len() as int;
        let b = stream.next_byte().unwrap();
        buf.push(b);
        proof {
            assert(buf@ =~= s0.take(k + 1));
            assert(stream@ =~= s0.skip(k + 1));
        }
    }
    proof {
        assert(buf@ =~= s0.take(amount as int));
    }
    Ok(buf)
}

/// The big-endian (network order) value of four bytes.
pub open spec fn be_u32(b0: u8, b1: u8, b2: u8, b3: u8) -> int {
    0x100_0000 * (b0 as int) + 0x1_0000 * (b1 as int) + 0x100 * (b2 as int) + (b3 as int)
}

/// Reads four bytes and combines them big-endian into an unsigned 32-bit
/// integer. A stream with fewer than four bytes left fails.
pub fn read_u32(stream: &mut ByteStream) -> (r: Result<u32, ProbeError>)
    requires
        old(stream).wf(),
    ensures
        final(stream).wf(),
        match r {
            Ok(v) => old(stream)@.len() >= 4 && v as int == be_u32(
                old(stream)@[0],
                old(stream)@[1],
                old(stream)@[2],
                old(stream)@[3],
            ) && final(stream)@ == old(stream)@.skip(4),
            Err(e) => e == ProbeError::UnexpectedEndOfStream && old(stream)@.len() < 4,
        },
{
    let buf = match read_bytes(stream, 4) {
        Ok(buf) => buf,
        Err(e) => {
            return Err(e);
        },
    };
    let v = 0x100_0000u32 * (buf[0] as u32) + 0x1_0000u32 * (buf[1] as u32) + 0x100u32 * (
    buf[2] as u32) + (buf[3] as u32);
    Ok(v)
}

/// Reads bytes until the CR LF terminator, then decodes the content (the
/// terminator stripped) as UTF-8. The limit bounds the content: a line of
/// exactly `limit` content bytes still succeeds, one of `limit + 1` does not.
/// A line feed without a carriage return directly before it always fails.
pub fn read_line(stream: &mut ByteStream, limit: usize) -> (r: Result<String, ProbeError>)
    requires
        old(stream).wf(),
    ensures
        final(stream).wf(),
        match r {
            Ok(line) => line_outcome(old(stream)@, limit as int) == Ok::<
                (Seq<char>, Seq<u8>),
                ProbeError,
            >((line@, final(stream)@)),
            Err(e) => line_outcome(old(stream)@, limit as int) == Err::<
                (Seq<char>, Seq<u8>),
                ProbeError,
            >(e),
        },
{
    let ghost s0 = stream@;
    let mut content: Vec<u8> = Vec::new();
    loop
        invariant
            s0 == old(stream)@,
            stream.wf(),
            content@.len() <= s0.len(),
            content@.len() <= limit + 1,
            content@ == s0.take(content@.len() as int),
            stream@ == s0.skip(content@.len() as int),
            forall|j: int| 0 <= j < content@.len() ==> s0[j] != LF,
            content@.len() == limit + 1 ==> s0[limit as int] == CR,
        decreases s0.len() - content@.len(),
    {
        let ghost k = content@.len() as int;
        match stream.next_byte() {
            None => {
                // The stream ended before a terminator was found.
                proof {
                    assert(s0.len() == k);
                    assert(!has_line_within(s0, limit as int)) by {
                        if has_line_within(s0, limit as int) {
                            let n = choose|n: int|
                                0 <= n <= limit as int && line_at(s0, n);
                            assert(s0[n + 1] == LF);
                        }
                    }
                    assert(!lf_without_cr_within(s0, limit as int)) by {
                        if lf_without_cr_within(s0, limit as int) {
                            let i = choose|i: int| i <= limit as int && lone_lf_at(s0, i);
                            assert(s0[i] != LF);
                        }
                    }
                    assert(ends_before_line(s0, limit as int));
                }
                return Err(ProbeError::UnexpectedEndOfStream);
            },
            Some(b) => {
                proof {
                    assert(b == s0[k]);
                }
                if b == LF {
                    if content.len() > 0 && content[content.len() - 1] == CR {
                        // A complete CR LF-terminated line of k - 1 content bytes.
                        proof {
                            assert(content@[k - 1] == s0[k - 1]);
                            assert(line_at(s0, k - 1));
                            assert(k - 1 <= limit as int);
                            lemma_read_line_strips_terminator(s0, limit as int, k - 1);
                        }
                        content.pop();
                        proof {
                            assert(content@ =~= s0.take(k - 1));
                            assert(stream@ =~= s0.skip(k + 1));
                        }
                        match decode_utf8(&content) {
                            Some(line) => {
                                return Ok(line);
                            },
                            None => {
                                return Err(ProbeError::InvalidEncoding);
                            },
                        }
                    } else {
                        // A line feed with no carriage return directly before it.
                        proof {
                            assert(k <= limit as int);
                            assert(lone_lf_at(s0, k));
                            assert(lf_without_cr_within(s0, limit as int));
                            assert(!has_line_within(s0, limit as int)) by {
                                if has_line_within(s0, limit as int) {
                                    let n = choose|n: int|
                                        0 <= n <= limit as int && line_at(s0, n);
                                    lemma_first_lf_pins_line(s0, k, n);
                                }
                            }
                        }
                        return Err(ProbeError::InvalidLineEnding);
                    }
                }
                if content.len() > limit {
                    // The limit plus a provisional CR are stored and the next
                    // byte completes no terminator: the content is too long.
                    proof {
                        lemma_too_long(s0, limit as int, k, b);
                    }
                    return Err(ProbeError::LineTooLong);
                }
                if content.len() == limit && b != CR {
                    proof {
                        lemma_too_long(s0, limit as int, k, b);
                    }
                    return Err(ProbeError::LineTooLong);
                }
                content.push(b);
                proof {
                    assert(content@ =~= s0.take(k + 1));
                    assert(stream@ =~= s0.skip(k + 1));
                }
            },
        }
    }
}

/// The scan of `s` reached index `k` without a line feed, and byte `k`
/// neither is one nor can start a terminator within the limit: the line is
/// too long.
proof fn lemma_too_long(s: Seq<u8>, limit: int, k: int, b: u8)
    requires
        0 <= limit,
        0 <= k < s.len(),
        b == s[k],
        b != LF,
        forall|j: int| 0 <= j < k ==> s[j] != LF,
        k == limit + 1 || (k == limit && b != CR),
        k == limit + 1 ==> s[limit] == CR,
    ensures
        line_outcome(s, limit) == Err::<(Seq<char>, Seq<u8>), ProbeError>(ProbeError::LineTooLong),
{
    assert(!has_line_within(s, limit)) by {
        if has_line_within(s, limit) {
            let n = choose|n: int| 0 <= n <= limit && line_at(s, n);
            assert(s[n + 1] == LF);
            assert(n + 1 <= limit + 1);
            if n + 1 <= k - 1 {
                assert(s[n + 1] != LF);
            } else if n + 1 == k {
                assert(b == LF);
            } else {
                // n + 1 == limit + 1 == k + 1, so s[n] == s[k] must be CR.
                assert(n == k && k == limit);
                assert(s[n] == CR);
            }
        }
    }
    assert(!lf_without_cr_within(s, limit)) by {
        if lf_without_cr_within(s, limit) {
            let i = choose|i: int| i <= limit && lone_lf_at(s, i);
            if i < k {
                assert(s[i] != LF);
            } else {
                assert(i == k && b == LF);
            }
        }
    }
    assert(!ends_before_line(s, limit)) by {
        assert(s.len() >= k + 1);
        if s.len() == limit + 1 {
            assert(k == limit && s[limit] != CR);
        }
    }
}

} // verus!
