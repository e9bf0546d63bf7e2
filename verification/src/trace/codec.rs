//! Serialization of trace events for off-box capture, over `postcard`.
//!
//! `postcard` is a compact, allocation-free wire format: the six words of a
//! [`SyscallEvent`] become LEB128 varints, one after the other, with no framing.
//! COBS framing on top delimits records with a zero byte, so that a stream of
//! events can be split back apart on the receiving side.
//!
//! The calls into `postcard` go through the four wrappers at the top of this
//! file. What they write is stated byte for byte ([`plain`], [`framed`]), and so is
//! what they read, from any bytes ([`decoded`], [`unframed`]). That reading gives
//! back what was written is proved from the two
//! ([`what_is_encoded_is_decoded`], [`what_is_framed_is_unframed`]), as is that an
//! encoding that was cut off is refused ([`a_cut_off_encoding_is_refused`],
//! [`a_cut_off_frame_is_refused`]).
use crate::trace;
use crate::trace::SyscallEvent;
use vstd::arithmetic::power;
use vstd::prelude::*;

verus! {

/// A safe upper bound on the encoded size of one [`SyscallEvent`], framed.
///
/// Six varints of at most 10 bytes each, one COBS overhead byte and the trailing
/// delimiter make 62 bytes at most.
pub const MAX_FRAMED_EVENT_LEN: usize = 64;

/// Why an event could not be encoded or decoded.
#[derive(Debug, Clone, Copy, PartialEq, Eq, Structural)]
pub enum CodecError {
    /// The buffer is too small for the encoding.
    BufferTooSmall,
    /// The bytes end before the last word does.
    UnexpectedEnd,
    /// A word does not end within ten bytes, or does not fit 64 bits.
    BadVarint,
    /// There are no bytes, or they are not COBS-encoded.
    BadEncoding,
}

/// The LEB128 encoding of `n`: seven bits per byte, least significant first, the
/// top bit set on every byte but the last.
pub open spec fn varint(n: nat) -> Seq<u8>
    decreases n,
{
    if n < 128 {
        seq![n as u8]
    } else {
        seq![(n % 128 + 128) as u8] + varint(n / 128)
    }
}

/// The varints of `words`, one after the other.
pub open spec fn plain(words: Seq<u64>) -> Seq<u8>
    decreases words.len(),
{
    if words.len() == 0 {
        Seq::empty()
    } else {
        plain(words.drop_last()) + varint(words.last() as nat)
    }
}

/// The length of the leading run of non-zero bytes of `s`.
pub open spec fn run(s: Seq<u8>) -> nat
    decreases s.len(),
{
    if s.len() == 0 || s[0] == 0 {
        0
    } else {
        1 + run(s.drop_first())
    }
}

/// The COBS encoding of `s`, where no run of non-zero bytes is longer than 253:
/// each zero byte, and one more at the end, is dropped, and what came before it
/// is preceded by its length plus one.
pub open spec fn stuffed(s: Seq<u8>) -> Seq<u8>
    decreases s.len(),
{
    let n = run(s);
    if n >= s.len() {
        seq![(n + 1) as u8] + s
    } else {
        seq![(n + 1) as u8] + s.take(n as int) + stuffed(s.skip(n as int + 1))
    }
}

/// One framed record: the COBS encoding and the zero delimiter.
pub open spec fn framed(words: Seq<u64>) -> Seq<u8> {
    stuffed(plain(words)).push(0)
}

/// The number at the front of `bytes` in LEB128, where `read` bytes of it have been
/// read already, and the number of bytes that it takes. The tenth byte holds the last
/// of the 64 bits, so it is at most one.
pub open spec fn word_from(bytes: Seq<u8>, read: nat) -> Result<(nat, nat), CodecError>
    decreases bytes.len(),
{
    if bytes.len() == 0 {
        Err(CodecError::UnexpectedEnd)
    } else if read >= 9 && bytes[0] > 1 {
        Err(CodecError::BadVarint)
    } else if bytes[0] < 128 {
        Ok((bytes[0] as nat, 1))
    } else {
        match word_from(bytes.drop_first(), read + 1) {
            Ok((high, used)) => Ok(((bytes[0] - 128 + 128 * high) as nat, used + 1)),
            Err(e) => Err(e),
        }
    }
}

/// The `n` words at the front of `bytes`; what follows them is ignored.
pub open spec fn decoded(bytes: Seq<u8>, n: nat) -> Result<Seq<u64>, CodecError>
    decreases n,
{
    if n == 0 {
        Ok(Seq::empty())
    } else {
        match word_from(bytes, 0) {
            Ok((word, used)) => match decoded(bytes.skip(used as int), (n - 1) as nat) {
                Ok(words) => Ok(seq![word as u64] + words),
                Err(e) => Err(e),
            },
            Err(e) => Err(e),
        }
    }
}

/// The bytes of which `s`, which holds no zero, is the COBS encoding: each block is a
/// length byte and one byte less than it says, and stands for these bytes and, unless
/// it is of the greatest length or the last, a zero.
pub open spec fn unstuffed(s: Seq<u8>) -> Option<Seq<u8>>
    decreases s.len(),
{
    if s.len() == 0 {
        Some(Seq::empty())
    } else if s[0] == 0 || s[0] > s.len() {
        None
    } else {
        let code = s[0] as int;
        let block = s.subrange(1, code);
        match unstuffed(s.skip(code)) {
            Some(rest) => if code == s.len() {
                Some(block)
            } else if code == 255 {
                Some(block + rest)
            } else {
                Some(block.push(0) + rest)
            },
            None => None,
        }
    }
}

/// The `n` words in the first frame of `bytes`, and the number of bytes that the
/// frame takes: all up to and with the first zero, or all of them if there is none.
pub open spec fn unframed(bytes: Seq<u8>, n: nat) -> Result<(Seq<u64>, int), CodecError> {
    let end = run(bytes) as int;
    if bytes.len() == 0 {
        Err(CodecError::BadEncoding)
    } else {
        match unstuffed(bytes.take(end)) {
            Some(payload) => match decoded(payload, n) {
                Ok(words) => Ok(
                    (
                        words,
                        if end < bytes.len() {
                            end + 1
                        } else {
                            end
                        },
                    ),
                ),
                Err(e) => Err(e),
            },
            None => Err(CodecError::BadEncoding),
        }
    }
}

/// The words in the fields of an event, as they are handed to `postcard`.
pub open spec fn words_of(fields: (u64, u64, [u64; 3], u64)) -> Seq<u64> {
    seq![fields.0, fields.1, fields.2@[0], fields.2@[1], fields.2@[2], fields.3]
}

/// The words read, or the error.
pub open spec fn read_words(
    r: Result<(u64, u64, [u64; 3], u64), CodecError>,
) -> Result<Seq<u64>, CodecError> {
    match r {
        Ok(fields) => Ok(words_of(fields)),
        Err(e) => Err(e),
    }
}

/// The error type of `postcard`, carried opaquely.
#[verifier::external_type_specification]
#[verifier::external_body]
pub struct ExPostcardError(postcard::Error);

/// `postcard::to_slice` writes the varints of the six words to the front of
/// `buf`, leaves the bytes after them alone, and returns the written prefix, of
/// which this returns the length. It fails exactly when the varints do not fit.
#[verifier::external_body]
fn write_plain(fields: (u64, u64, [u64; 3], u64), buf: &mut [u8]) -> (r: Result<
    usize,
    postcard::Error,
>)
    ensures
        match r {
            Ok(n) => n == plain(words_of(fields)).len() && n <= old(buf)@.len() && final(buf)@
                == plain(words_of(fields)) + old(buf)@.skip(n as int),
            Err(_) => plain(words_of(fields)).len() > old(buf)@.len() && final(buf)@.len() == old(
                buf,
            )@.len(),
        },
{
    postcard::to_slice(&fields, buf).map(|written| written.len())
}

/// `postcard::to_slice_cobs` writes the framed record of the six words to the
/// front of `buf`, leaves the bytes after it alone, and returns the written
/// prefix, of which this returns the length. It fails exactly when the record
/// does not fit.
#[verifier::external_body]
fn write_framed(fields: (u64, u64, [u64; 3], u64), buf: &mut [u8]) -> (r: Result<
    usize,
    postcard::Error,
>)
    ensures
        match r {
            Ok(n) => n == framed(words_of(fields)).len() && n <= old(buf)@.len() && final(buf)@
                == framed(words_of(fields)) + old(buf)@.skip(n as int),
            Err(_) => framed(words_of(fields)).len() > old(buf)@.len() && final(buf)@.len() == old(
                buf,
            )@.len(),
        },
{
    postcard::to_slice_cobs(&fields, buf).map(|written| written.len())
}

/// `postcard::from_bytes` reads six varints from the front of `bytes` and ignores
/// what follows them. Where the bytes end too early it returns
/// `DeserializeUnexpectedEnd`, and where a varint is too long or too large
/// `DeserializeBadVarint`; this returns the error of the same name.
#[verifier::external_body]
fn read_plain(bytes: &[u8]) -> (r: Result<(u64, u64, [u64; 3], u64), CodecError>)
    ensures
        read_words(r) == decoded(bytes@, 6),
{
    match postcard::from_bytes(bytes) {
        Ok(fields) => Ok(fields),
        Err(postcard::Error::DeserializeUnexpectedEnd) => Err(CodecError::UnexpectedEnd),
        Err(postcard::Error::DeserializeBadVarint) => Err(CodecError::BadVarint),
        Err(_) => Err(CodecError::BadEncoding),
    }
}

/// `postcard::take_from_bytes_cobs` decodes the first frame of `bytes` in place,
/// reads six varints from it, and returns them with the bytes after the frame,
/// which it leaves alone and of which this returns the number. Where there are no
/// bytes or the frame is no COBS encoding it returns `DeserializeBadEncoding`, and
/// else the errors of `postcard::from_bytes` on what the frame holds; this returns the
/// error of the same name. What the decoded frame's own bytes hold afterwards is left
/// unsaid.
#[verifier::external_body]
fn read_framed(bytes: &mut [u8]) -> (r: Result<
    ((u64, u64, [u64; 3], u64), usize),
    CodecError,
>)
    ensures
        final(bytes)@.len() == old(bytes)@.len(),
        match r {
            Ok((fields, left)) => left <= old(bytes)@.len() && unframed(old(bytes)@, 6) == Ok::<
                (Seq<u64>, int),
                CodecError,
            >((words_of(fields), old(bytes)@.len() - left)) && final(bytes)@.skip(
                old(bytes)@.len() - left,
            ) == old(bytes)@.skip(old(bytes)@.len() - left),
            Err(e) => unframed(old(bytes)@, 6) == Err::<(Seq<u64>, int), CodecError>(e),
        },
{
    match postcard::take_from_bytes_cobs(bytes) {
        Ok((fields, rest)) => Ok((fields, rest.len())),
        Err(postcard::Error::DeserializeUnexpectedEnd) => Err(CodecError::UnexpectedEnd),
        Err(postcard::Error::DeserializeBadVarint) => Err(CodecError::BadVarint),
        Err(_) => Err(CodecError::BadEncoding),
    }
}

/// Encodes `event` into `buf` (no framing), returning the written prefix.
///
/// # Errors
///
/// [`CodecError::BufferTooSmall`] if `buf` cannot hold the varint encoding; see
/// [`MAX_FRAMED_EVENT_LEN`] for a safe size.
pub fn encode<'a>(event: &SyscallEvent, buf: &'a mut [u8]) -> (r: Result<&'a mut [u8], CodecError>)
    ensures
        match r {
            Ok(written) => written@ == plain(event.words()) && written@.len() <= old(buf)@.len()
                && final(buf)@ == final(written)@ + old(buf)@.skip(written@.len() as int),
            Err(e) => e == CodecError::BufferTooSmall && plain(event.words()).len() > old(
                buf,
            )@.len() && final(buf)@.len() == old(buf)@.len(),
        },
{
    let ghost before = buf@;
    match write_plain((event.seq, event.syscall, event.args, event.result), buf) {
        Ok(n) => {
            let (written, rest) = buf.split_at_mut(n);
            assert(written@ =~= plain(event.words()));
            assert(rest@ =~= before.skip(n as int));
            Ok(written)
        },
        Err(_) => Err(CodecError::BufferTooSmall),
    }
}

/// Decodes one [`SyscallEvent`] from the front of `bytes` (no framing).
///
/// Whatever follows the encoding is ignored, and an encoding that [`encode`] has
/// written is read back as the event that was written.
///
/// # Errors
///
/// [`CodecError::UnexpectedEnd`] if the bytes end before the sixth word does;
/// [`CodecError::BadVarint`] if a word takes more than ten bytes or more than 64
/// bits. Where the words run into several of these, the first decides.
pub fn decode(bytes: &[u8]) -> (r: Result<SyscallEvent, CodecError>)
    ensures
        match r {
            Ok(event) => decoded(bytes@, 6) == Ok::<Seq<u64>, CodecError>(event.words()),
            Err(e) => decoded(bytes@, 6) == Err::<Seq<u64>, CodecError>(e),
        },
        forall|event: SyscallEvent, rest: Seq<u8>|
            bytes@ == #[trigger] (plain(event.words()) + rest) ==> r == Ok::<
                SyscallEvent,
                CodecError,
            >(event),
{
    match read_plain(bytes) {
        Ok((seq, syscall, args, result)) => {
            let event = SyscallEvent::new(seq, syscall, args, result);
            assert(event.words() =~= words_of((seq, syscall, args, result)));
            assert forall|e: SyscallEvent, rest: Seq<u8>|
                bytes@ == #[trigger] (plain(e.words()) + rest) implies e == event by {
                what_is_encoded_is_decoded(e.words(), rest);
                trace::event_is_determined_by_words(e, event);
            }
            Ok(event)
        },
        Err(e) => {
            assert forall|event: SyscallEvent, rest: Seq<u8>|
                bytes@ != #[trigger] (plain(event.words()) + rest) by {
                what_is_encoded_is_decoded(event.words(), rest);
            }
            Err(e)
        },
    }
}

/// Encodes `event` into `buf` as a COBS-framed record, returning the framed
/// bytes (including the trailing zero delimiter).
///
/// # Errors
///
/// [`CodecError::BufferTooSmall`] if `buf` cannot hold the record.
pub fn encode_framed<'a>(event: &SyscallEvent, buf: &'a mut [u8]) -> (r: Result<
    &'a mut [u8],
    CodecError,
>)
    ensures
        match r {
            Ok(written) => written@ == framed(event.words()) && written@.len() <= old(buf)@.len()
                && final(buf)@ == final(written)@ + old(buf)@.skip(written@.len() as int),
            Err(e) => e == CodecError::BufferTooSmall && framed(event.words()).len() > old(
                buf,
            )@.len() && final(buf)@.len() == old(buf)@.len(),
        },
{
    let ghost before = buf@;
    match write_framed((event.seq, event.syscall, event.args, event.result), buf) {
        Ok(n) => {
            let (written, rest) = buf.split_at_mut(n);
            assert(written@ =~= framed(event.words()));
            assert(rest@ =~= before.skip(n as int));
            Ok(written)
        },
        Err(_) => Err(CodecError::BufferTooSmall),
    }
}

/// Decodes the first COBS-framed [`SyscallEvent`] from `bytes`, returning it
/// along with the remaining bytes after the frame.
///
/// Call repeatedly, feeding back the returned remainder, to decode a stream of
/// framed events. The frame is decoded in place, so its bytes are overwritten;
/// the remainder is left alone. A frame that [`encode_framed`] has written is
/// read back as the event that was written, and the remainder is all that came
/// after it.
///
/// # Errors
///
/// [`CodecError::BadEncoding`] if `bytes` is empty or its first frame is no COBS
/// encoding, and the errors of [`decode`] on what the frame holds.
pub fn decode_framed(bytes: &mut [u8]) -> (r: Result<(SyscallEvent, &mut [u8]), CodecError>)
    ensures
        match r {
            Ok((event, rest)) => unframed(old(bytes)@, 6) == Ok::<(Seq<u64>, int), CodecError>(
                (event.words(), old(bytes)@.len() - rest@.len()),
            ) && rest@.len() <= old(bytes)@.len() && rest@ == old(bytes)@.skip(
                old(bytes)@.len() - rest@.len(),
            ) && final(bytes)@.skip(old(bytes)@.len() - rest@.len()) == final(rest)@,
            Err(e) => unframed(old(bytes)@, 6) == Err::<(Seq<u64>, int), CodecError>(e)
                && final(bytes)@.len() == old(bytes)@.len(),
        },
        forall|event: SyscallEvent, tail: Seq<u8>|
            old(bytes)@ == #[trigger] (framed(event.words()) + tail) ==> (r matches Ok((e, rest))
                && e == event && rest@ == tail),
{
    let ghost before = bytes@;
    let len: usize = bytes.len();
    match read_framed(bytes) {
        Ok(((seq, syscall, args, result), left)) => {
            let event = SyscallEvent::new(seq, syscall, args, result);
            assert(event.words() =~= words_of((seq, syscall, args, result)));
            let (frame, rest) = bytes.split_at_mut(len - left);
            assert(rest@ =~= before.skip(len - left));
            assert forall|e: SyscallEvent, tail: Seq<u8>|
                before == #[trigger] (framed(e.words()) + tail) implies e == event && rest@
                == tail by {
                what_is_framed_is_unframed(e, tail);
                trace::event_is_determined_by_words(e, event);
                assert(rest@ =~= tail);
            }
            Ok((event, rest))
        },
        Err(e) => {
            assert forall|event: SyscallEvent, tail: Seq<u8>|
                before != #[trigger] (framed(event.words()) + tail) by {
                what_is_framed_is_unframed(event, tail);
            }
            Err(e)
        },
    }
}

proof fn lemma_varint_len(n: nat, k: nat)
    requires
        k >= 1,
        n < power::pow(128, k),
    ensures
        1 <= varint(n).len() <= k,
    decreases k,
{
    if n >= 128 {
        reveal_with_fuel(power::pow, 2);
        assert(k >= 2);
        assert(n / 128 < power::pow(128, (k - 1) as nat));
        lemma_varint_len(n / 128, (k - 1) as nat);
    }
}

/// A 64-bit word takes between one and ten bytes.
proof fn lemma_word_len(word: u64)
    ensures
        1 <= varint(word as nat).len() <= 10,
{
    reveal_with_fuel(power::pow, 11);
    lemma_varint_len(word as nat, 10);
}

proof fn lemma_plain_len(words: Seq<u64>)
    ensures
        words.len() <= plain(words).len() <= 10 * words.len(),
    decreases words.len(),
{
    if words.len() > 0 {
        lemma_plain_len(words.drop_last());
        lemma_word_len(words.last());
    }
}

proof fn lemma_run(s: Seq<u8>)
    ensures
        run(s) <= s.len(),
        forall|i: int| 0 <= i < run(s) ==> s[i] != 0,
        run(s) < s.len() ==> s[run(s) as int] == 0,
    decreases s.len(),
{
    if s.len() > 0 && s[0] != 0 {
        let t = s.drop_first();
        lemma_run(t);
        assert forall|i: int| 0 <= i < run(s) implies s[i] != 0 by {
            if i > 0 {
                assert(t[i - 1] == s[i]);
            }
        }
        if run(s) < s.len() {
            assert(t[run(t) as int] == s[run(s) as int]);
        }
    }
}

/// Stuffing adds one byte and leaves no zero behind.
proof fn lemma_stuffed(s: Seq<u8>)
    requires
        s.len() < 254,
    ensures
        stuffed(s).len() == s.len() + 1,
        forall|i: int| 0 <= i < stuffed(s).len() ==> stuffed(s)[i] != 0,
    decreases s.len(),
{
    let n = run(s);
    lemma_run(s);
    if n < s.len() {
        let rest = s.skip(n as int + 1);
        lemma_stuffed(rest);
        let head = seq![(n + 1) as u8] + s.take(n as int);
        assert(stuffed(s) == head + stuffed(rest));
        assert forall|i: int| 0 <= i < stuffed(s).len() implies stuffed(s)[i] != 0 by {
            if i >= head.len() {
                assert(stuffed(s)[i] == stuffed(rest)[i - head.len()]);
            } else if i > 0 {
                assert(stuffed(s)[i] == s[i - 1]);
            }
        }
    } else {
        assert forall|i: int| 0 <= i < stuffed(s).len() implies stuffed(s)[i] != 0 by {
            if i > 0 {
                assert(stuffed(s)[i] == s[i - 1]);
            }
        }
    }
}

/// The words handed over are the fields of the record in order.
pub proof fn words_are_handed_over_in_order(fields: (u64, u64, [u64; 3], u64), event: SyscallEvent)
    ensures
        words_of(fields).len() == 6,
        words_of(fields)[0] == fields.0,
        words_of(fields)[1] == fields.1,
        words_of(fields).subrange(2, 5) == fields.2@,
        words_of(fields)[5] == fields.3,
        words_of((event.seq, event.syscall, event.args, event.result)) == event.words(),
{
    assert(words_of(fields).subrange(2, 5) =~= fields.2@);
    assert(words_of((event.seq, event.syscall, event.args, event.result)) =~= event.words());
}

/// A varint holds the digits of the number to the base 128, the lowest first: the low seven
/// bits of each byte are the digit, and its top bit says that more follow. It is as short
/// as that allows: only zero has a last digit of zero.
pub proof fn varints_hold_the_digits(n: nat, i: int)
    requires
        0 <= i < varint(n).len(),
    ensures
        varint(n)[i] as int % 128 == (n as int / power::pow(128, i as nat)) % 128,
        varint(n)[i] >= 128 <==> i < varint(n).len() - 1,
        n as int / power::pow(128, varint(n).len()) == 0,
        n > 0 ==> varint(n).last() > 0,
    decreases n,
{
    reveal(power::pow);
    if n >= 128 {
        let tail = varint(n / 128);
        let all = varint(n);
        assert(tail.len() >= 1) by {
            reveal_with_fuel(varint, 2);
        }
        assert(all.last() == tail.last());
        let j = if i > 0 {
            i - 1
        } else {
            0
        };
        varints_hold_the_digits(n / 128, j);
        power::lemma_pow_positive(128, j as nat);
        power::lemma_pow_positive(128, tail.len());
        assert(power::pow(128, tail.len() + 1) == 128 * power::pow(128, tail.len()));
        vstd::arithmetic::div_mod::lemma_div_denominator(
            n as int,
            128,
            power::pow(128, tail.len()),
        );
        if i > 0 {
            assert(all[i] == tail[i - 1]);
            assert(power::pow(128, i as nat) == 128 * power::pow(128, (i - 1) as nat));
            vstd::arithmetic::div_mod::lemma_div_denominator(
                n as int,
                128,
                power::pow(128, (i - 1) as nat),
            );
        } else {
            assert(power::pow(128, 0) == 1);
        }
    } else {
        assert(power::pow(128, 0) == 1);
        assert(power::pow(128, 1) == 128 * power::pow(128, 0));
    }
}

/// A word that goes on too long is refused, and one that the bytes do not finish ends too
/// early: after nine bytes that each say that more follow, the tenth may hold the last bit
/// of the 64 and no more.
pub proof fn unfinished_and_overlong_words_are_refused(bytes: Seq<u8>)
    ensures
        bytes.len() <= 9 && (forall|i: int| 0 <= i < bytes.len() ==> #[trigger] bytes[i] >= 128)
            ==> word_from(bytes, 0) == Err::<(nat, nat), CodecError>(CodecError::UnexpectedEnd),
        bytes.len() >= 10 && (forall|i: int| 0 <= i < 9 ==> #[trigger] bytes[i] >= 128) && bytes[9]
            > 1 ==> word_from(bytes, 0) == Err::<(nat, nat), CodecError>(CodecError::BadVarint),
{
    if bytes.len() <= 9 && (forall|i: int| 0 <= i < bytes.len() ==> #[trigger] bytes[i] >= 128) {
        lemma_word_runs_on(bytes, 0);
    }
    if bytes.len() >= 10 && (forall|i: int| 0 <= i < 9 ==> #[trigger] bytes[i] >= 128) && bytes[9]
        > 1 {
        lemma_word_runs_on(bytes, 0);
    }
}

/// The same where some bytes have been read.
proof fn lemma_word_runs_on(bytes: Seq<u8>, read: nat)
    requires
        read <= 9,
        forall|i: int| 0 <= i < bytes.len() && i < 9 - read ==> #[trigger] bytes[i] >= 128,
        bytes.len() > 9 - read ==> bytes[9 - read] > 1,
    ensures
        bytes.len() <= 9 - read ==> word_from(bytes, read) == Err::<(nat, nat), CodecError>(
            CodecError::UnexpectedEnd,
        ),
        bytes.len() > 9 - read ==> word_from(bytes, read) == Err::<(nat, nat), CodecError>(
            CodecError::BadVarint,
        ),
    decreases bytes.len(),
{
    if bytes.len() > 0 && read < 9 {
        let rest = bytes.drop_first();
        assert forall|i: int| 0 <= i < rest.len() && i < 9 - (read + 1) implies #[trigger] rest[i]
            >= 128 by {
            assert(bytes[i + 1] >= 128);
        }
        lemma_word_runs_on(rest, read + 1);
        assert(bytes[0] >= 128);
    }
}

/// Every event fits the size bound, framed and plain, so a scratch buffer of
/// [`MAX_FRAMED_EVENT_LEN`] bytes is never too small.
pub proof fn every_event_fits_the_bound(event: SyscallEvent)
    ensures
        6 <= plain(event.words()).len() <= 60,
        framed(event.words()).len() == plain(event.words()).len() + 2,
        framed(event.words()).len() <= 62,
        framed(event.words()).len() <= MAX_FRAMED_EVENT_LEN,
{
    lemma_plain_len(event.words());
    lemma_stuffed(plain(event.words()));
}

/// A frame ends in a zero byte and holds no other, so that a receiver finds the
/// end of the first frame of any stream by scanning for the first zero.
pub proof fn frame_ends_at_its_first_zero(event: SyscallEvent, tail: Seq<u8>)
    ensures
        framed(event.words()).last() == 0,
        forall|i: int|
            0 <= i < framed(event.words()).len() - 1 ==> framed(event.words())[i] != 0,
        run(framed(event.words()) + tail) == framed(event.words()).len() - 1,
{
    let frame = framed(event.words());
    every_event_fits_the_bound(event);
    lemma_stuffed(plain(event.words()));
    assert forall|i: int| 0 <= i < frame.len() - 1 implies frame[i] != 0 by {
        assert(frame[i] == stuffed(plain(event.words()))[i]);
    }
    lemma_run(frame + tail);
    let n = run(frame + tail) as int;
    assert((frame + tail)[frame.len() - 1] == 0);
    if n < frame.len() - 1 {
        assert((frame + tail)[n] == frame[n]);
    }
}

/// One more than the greatest number that fits where `read` bytes have been read.
spec fn room(read: nat) -> nat
    decreases 9 - read,
{
    if read >= 9 {
        2
    } else {
        128 * room(read + 1)
    }
}

proof fn lemma_room()
    ensures
        room(0) == 0x1_0000_0000_0000_0000,
{
    reveal_with_fuel(room, 10);
}

/// A varint is read back as the number that was written, and all of it is needed.
proof fn lemma_word_from_varint(n: nat, rest: Seq<u8>, read: nat, k: nat)
    requires
        n < room(read),
        read <= 9,
    ensures
        varint(n).len() >= 1,
        word_from(varint(n) + rest, read) == Ok::<(nat, nat), CodecError>((n, varint(n).len())),
        k < varint(n).len() ==> word_from(varint(n).take(k as int), read) == Err::<
            (nat, nat),
            CodecError,
        >(CodecError::UnexpectedEnd),
    decreases n,
{
    let s = varint(n) + rest;
    let cut = varint(n).take(k as int);
    if n >= 128 {
        let high = n / 128;
        lemma_word_from_varint(high, rest, read + 1, (k - 1) as nat);
        assert(s.drop_first() =~= varint(high) + rest);
        if 0 < k < varint(n).len() {
            assert(cut.drop_first() =~= varint(high).take(k - 1));
            assert(cut[0] == varint(n)[0]);
        }
    }
}

proof fn lemma_plain_first(words: Seq<u64>)
    requires
        words.len() > 0,
    ensures
        plain(words) == varint(words[0] as nat) + plain(words.drop_first()),
    decreases words.len(),
{
    if words.len() == 1 {
        assert(words.drop_last() =~= Seq::empty());
        assert(words.drop_first() =~= Seq::empty());
        assert(plain(words) =~= varint(words[0] as nat) + plain(words.drop_first()));
    } else {
        let front = words.drop_last();
        lemma_plain_first(front);
        assert(words.drop_first().drop_last() =~= front.drop_first());
        assert(words.drop_first().last() == words.last());
        assert(plain(words) =~= varint(words[0] as nat) + plain(words.drop_first()));
    }
}

/// What was encoded is what is decoded, whatever follows the encoding.
pub proof fn what_is_encoded_is_decoded(words: Seq<u64>, rest: Seq<u8>)
    ensures
        decoded(plain(words) + rest, words.len()) == Ok::<Seq<u64>, CodecError>(words),
    decreases words.len(),
{
    if words.len() == 0 {
        assert(words =~= Seq::empty());
    } else {
        let first = varint(words[0] as nat);
        let tail = words.drop_first();
        let bytes = plain(words) + rest;
        lemma_plain_first(words);
        lemma_room();
        assert(bytes =~= first + (plain(tail) + rest));
        lemma_word_from_varint(words[0] as nat, plain(tail) + rest, 0, 0);
        assert(bytes.skip(first.len() as int) =~= plain(tail) + rest);
        what_is_encoded_is_decoded(tail, rest);
        assert(seq![words[0]] + tail =~= words);
    }
}

/// An encoding that was cut off anywhere is refused: the words end too early.
pub proof fn a_cut_off_encoding_is_refused(words: Seq<u64>, k: nat)
    requires
        k < plain(words).len(),
    ensures
        decoded(plain(words).take(k as int), words.len()) == Err::<Seq<u64>, CodecError>(
            CodecError::UnexpectedEnd,
        ),
    decreases words.len(),
{
    if words.len() > 0 {
        let first = varint(words[0] as nat);
        let tail = words.drop_first();
        let cut = plain(words).take(k as int);
        lemma_plain_first(words);
        lemma_room();
        if k < first.len() {
            lemma_word_from_varint(words[0] as nat, Seq::empty(), 0, k);
            assert(cut =~= first.take(k as int));
        } else {
            let left = (k - first.len()) as nat;
            lemma_word_from_varint(words[0] as nat, plain(tail).take(left as int), 0, 0);
            assert(cut =~= first + plain(tail).take(left as int));
            assert(cut.skip(first.len() as int) =~= plain(tail).take(left as int));
            a_cut_off_encoding_is_refused(tail, left);
        }
    }
}

/// Unstuffing gives back what was stuffed, and of a part of it that was cut off
/// either nothing or less.
proof fn lemma_unstuffed(s: Seq<u8>, k: nat)
    requires
        s.len() < 254,
    ensures
        unstuffed(stuffed(s)) == Some(s),
        k < stuffed(s).len() ==> (unstuffed(stuffed(s).take(k as int)) matches Some(part) ==> s.len()
            == 0 || (part.len() < s.len() && part == s.take(part.len() as int))),
    decreases s.len(),
{
    let n = run(s) as int;
    let t = stuffed(s);
    let cut = t.take(k as int);
    lemma_run(s);
    lemma_stuffed(s);
    if n >= s.len() {
        assert(unstuffed(t.skip(n + 1)) == Some(Seq::<u8>::empty()));
        assert(t.subrange(1, n + 1) =~= s);
        if 0 < k < t.len() {
            assert(cut[0] == t[0]);
        } else if k == 0 {
            assert(s.take(0) =~= Seq::empty());
        }
    } else {
        let rest = s.skip(n + 1);
        let head = seq![(n + 1) as u8] + s.take(n);
        lemma_stuffed(rest);
        lemma_unstuffed(rest, (k - (n + 1)) as nat);
        assert(t == head + stuffed(rest));
        assert(t.skip(n + 1) =~= stuffed(rest));
        assert(t.subrange(1, n + 1) =~= s.take(n));
        assert(s.take(n).push(0) + rest =~= s);
        if k == 0 {
            assert(s.take(0) =~= Seq::empty());
        } else if k < t.len() {
            assert(cut[0] == t[0]);
            if k >= n + 1 {
                let left = k - (n + 1);
                assert(cut.skip(n + 1) =~= stuffed(rest).take(left));
                assert(cut.subrange(1, n + 1) =~= s.take(n));
                if left > 0 {
                    match unstuffed(stuffed(rest).take(left)) {
                        Some(part) => {
                            if rest.len() == 0 {
                                assert(left < stuffed(rest).len());
                            } else {
                                assert(s.take(n).push(0) + part =~= s.take(n + 1 + part.len()));
                            }
                        },
                        None => {},
                    }
                }
            }
        }
    }
}

/// What was framed is what is unframed, and the frame takes exactly its own bytes,
/// whatever follows it.
pub proof fn what_is_framed_is_unframed(event: SyscallEvent, tail: Seq<u8>)
    ensures
        unframed(framed(event.words()) + tail, 6) == Ok::<(Seq<u64>, int), CodecError>(
            (event.words(), framed(event.words()).len() as int),
        ),
{
    let words = event.words();
    let bytes = framed(words) + tail;
    every_event_fits_the_bound(event);
    frame_ends_at_its_first_zero(event, tail);
    lemma_unstuffed(plain(words), 0);
    assert(bytes.take(run(bytes) as int) =~= stuffed(plain(words)));
    assert(plain(words) + Seq::<u8>::empty() =~= plain(words));
    what_is_encoded_is_decoded(words, Seq::empty());
}

/// A frame that was cut off anywhere before its delimiter is refused.
pub proof fn a_cut_off_frame_is_refused(event: SyscallEvent, k: nat)
    requires
        k < framed(event.words()).len() - 1,
    ensures
        unframed(framed(event.words()).take(k as int), 6) is Err,
{
    let words = event.words();
    let payload = plain(words);
    let cut = framed(words).take(k as int);
    every_event_fits_the_bound(event);
    lemma_stuffed(payload);
    lemma_unstuffed(payload, k);
    lemma_run(cut);
    assert(cut =~= stuffed(payload).take(k as int));
    assert(run(cut) == cut.len()) by {
        if run(cut) < cut.len() {
            assert(cut[run(cut) as int] == stuffed(payload)[run(cut) as int]);
        }
    }
    assert(cut.take(run(cut) as int) =~= cut);
    if let Some(part) = unstuffed(cut) {
        a_cut_off_encoding_is_refused(words, part.len());
    }
}

/// The frames of `events`, one after the other.
pub open spec fn stream(events: Seq<SyscallEvent>) -> Seq<u8>
    decreases events.len(),
{
    if events.len() == 0 {
        Seq::empty()
    } else {
        framed(events[0].words()) + stream(events.drop_first())
    }
}

/// A stream of framed events splits back apart: while events are left the bytes
/// are not empty and start with the frame of the first of them, which is what
/// [`decode_framed`] then reads, leaving the stream of the others.
pub proof fn a_stream_splits_back_apart(events: Seq<SyscallEvent>)
    ensures
        stream(events).len() == 0 <==> events.len() == 0,
        events.len() > 0 ==> stream(events) == framed(events[0].words()) + stream(
            events.drop_first(),
        ),
{
    if events.len() > 0 {
        every_event_fits_the_bound(events[0]);
    }
}

proof fn lemma_varint_prefix(m: nat, n: nat, x: Seq<u8>, y: Seq<u8>)
    requires
        varint(m) + x == varint(n) + y,
    ensures
        m == n,
        x == y,
    decreases m,
{
    let s = varint(m) + x;
    assert(s[0] == varint(m)[0]);
    assert(s[0] == varint(n)[0]);
    if m < 128 {
        assert(varint(m)[0] == m);
        assert(n < 128);
        assert(x =~= s.skip(1));
        assert(y =~= s.skip(1));
    } else {
        assert(n >= 128);
        assert(varint(m / 128) + x =~= s.skip(1));
        assert(varint(n / 128) + y =~= s.skip(1));
        lemma_varint_prefix(m / 128, n / 128, x, y);
    }
}

proof fn lemma_plain_prefix(a: Seq<u64>, b: Seq<u64>, x: Seq<u8>, y: Seq<u8>)
    requires
        a.len() == b.len(),
        plain(a) + x == plain(b) + y,
    ensures
        a == b,
        x == y,
    decreases a.len(),
{
    if a.len() == 0 {
        assert(plain(a) + x =~= x);
        assert(plain(b) + y =~= y);
        assert(a =~= b);
    } else {
        let u = varint(a.last() as nat) + x;
        let v = varint(b.last() as nat) + y;
        assert(plain(a) + x =~= plain(a.drop_last()) + u);
        assert(plain(b) + y =~= plain(b.drop_last()) + v);
        lemma_plain_prefix(a.drop_last(), b.drop_last(), u, v);
        lemma_varint_prefix(a.last() as nat, b.last() as nat, x, y);
        assert(a =~= a.drop_last().push(a.last()));
        assert(b =~= b.drop_last().push(b.last()));
    }
}

/// The plain encoding is unambiguous: no two events share an encoding, nor does
/// one encoding begin another.
pub proof fn plain_encoding_is_unambiguous(
    a: SyscallEvent,
    b: SyscallEvent,
    x: Seq<u8>,
    y: Seq<u8>,
)
    requires
        plain(a.words()) + x == plain(b.words()) + y,
    ensures
        a == b,
        x == y,
{
    lemma_plain_prefix(a.words(), b.words(), x, y);
    trace::event_is_determined_by_words(a, b);
}

} // verus!
