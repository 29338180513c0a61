//! Decoding of percent- and underscore-encoded endpoint names for display.

use vstd::prelude::*;
use vstd::utf8::{decode_utf8, valid_utf8};

verus! {

/// Why an endpoint name could not be decoded.
#[derive(PartialEq, Eq, Structural, Debug, Clone, Copy)]
pub enum DecodeError {
    OddLengthHexString,
    HexNotValidByte,
    ByteVecNotUtf8,
    IncompleteParse,
}

impl DecodeError {
    /// A sentence that says what went wrong.
    pub fn message(&self) -> (r: &'static str)
        ensures
            r@ == match *self {
                DecodeError::OddLengthHexString => "Hex String has odd number of characters"@,
                DecodeError::HexNotValidByte => "Failed to convert hex code to u8 value"@,
                DecodeError::ByteVecNotUtf8 => "Bytes from hex string is not valid utf8"@,
                DecodeError::IncompleteParse => "String ended on incomplete hex code"@,
            },
    {
        match self {
            DecodeError::OddLengthHexString => "Hex String has odd number of characters",
            DecodeError::HexNotValidByte => "Failed to convert hex code to u8 value",
            DecodeError::ByteVecNotUtf8 => "Bytes from hex string is not valid utf8",
            DecodeError::IncompleteParse => "String ended on incomplete hex code",
        }
    }
}

/// The state of the decoding transducer.
#[derive(PartialEq, Eq, Structural, Debug, Clone, Copy)]
pub enum DecoderState {
    /// Copying characters to the output.
    Reading,
    /// Inside an escape, with an odd number of hex characters buffered
    /// (or none yet).
    Parsing,
    /// Inside an escape, with an even number of hex characters buffered.
    ParseReady,
}

/// The value of a hexadecimal digit, in either case.
pub open spec fn hex_digit_value(c: char) -> Option<int> {
    if '0' <= c && c <= '9' {
        Some(c as int - '0' as int)
    } else if 'a' <= c && c <= 'f' {
        Some(c as int - 'a' as int + 10)
    } else if 'A' <= c && c <= 'F' {
        Some(c as int - 'A' as int + 10)
    } else {
        None
    }
}

pub open spec fn all_hex_digits(h: Seq<char>) -> bool {
    forall|i: int| 0 <= i < h.len() ==> (#[trigger] hex_digit_value(h[i])) is Some
}

/// The bytes written by a run of hex digits, two digits per byte.
pub open spec fn hex_bytes(h: Seq<char>) -> Seq<u8> {
    Seq::new(
        h.len() / 2,
        |i: int| (hex_digit_value(h[2 * i])->0 * 16 + hex_digit_value(h[2 * i + 1])->0) as u8,
    )
}

/// The text that a buffered run of hex digits stands for.
pub open spec fn hex_text(h: Seq<char>) -> Result<Seq<char>, DecodeError> {
    if h.len() % 2 != 0 {
        Err(DecodeError::OddLengthHexString)
    } else if !all_hex_digits(h) {
        Err(DecodeError::HexNotValidByte)
    } else if !valid_utf8(hex_bytes(h)) {
        Err(DecodeError::ByteVecNotUtf8)
    } else {
        Ok(decode_utf8(hex_bytes(h)))
    }
}

/// A configuration of the transducer: output so far, buffered hex run, state.
pub type DecodeProgress = (Seq<char>, Seq<char>, DecoderState);

/// One transition of the transducer on the character `c`.
pub open spec fn decode_step(p: DecodeProgress, c: char) -> Result<DecodeProgress, DecodeError> {
    let (out, hex, state) = p;
    match state {
        DecoderState::Reading => {
            if c == '%' {
                Ok((out, hex, DecoderState::Parsing))
            } else if c == '_' {
                Ok((out.push(' '), hex, DecoderState::Reading))
            } else {
                Ok((out.push(c), hex, DecoderState::Reading))
            }
        },
        DecoderState::Parsing => {
            let h = hex.push(c);
            if h.len() % 2 == 0 {
                Ok((out, h, DecoderState::ParseReady))
            } else {
                Ok((out, h, DecoderState::Parsing))
            }
        },
        DecoderState::ParseReady => {
            if c == '%' {
                Ok((out, hex, DecoderState::Parsing))
            } else {
                match hex_text(hex) {
                    Ok(t) => Ok(((out + t).push(c), Seq::empty(), DecoderState::Reading)),
                    Err(e) => Err(e),
                }
            }
        },
    }
}

/// The transducer run over a whole character sequence, stopping at the
/// first error.
pub open spec fn decode_run(s: Seq<char>) -> Result<DecodeProgress, DecodeError>
    decreases s.len(),
{
    if s.len() == 0 {
        Ok((Seq::empty(), Seq::empty(), DecoderState::Reading))
    } else {
        match decode_run(s.drop_last()) {
            Ok(p) => decode_step(p, s.last()),
            Err(e) => Err(e),
        }
    }
}

/// What the end of input does to a configuration.
pub open spec fn decode_finish(p: DecodeProgress) -> Result<Seq<char>, DecodeError> {
    let (out, hex, state) = p;
    match state {
        DecoderState::Reading => Ok(out),
        DecoderState::Parsing => Err(DecodeError::IncompleteParse),
        DecoderState::ParseReady => match hex_text(hex) {
            Ok(t) => Ok(out + t),
            Err(e) => Err(e),
        },
    }
}

/// The decoded display text of an endpoint name, or why there is none.
pub open spec fn decoded(s: Seq<char>) -> Result<Seq<char>, DecodeError> {
    match decode_run(s) {
        Ok(p) => decode_finish(p),
        Err(e) => Err(e),
    }
}

/// Decodes an endpoint name: `_` becomes a space and each run of `%XX`
/// escapes becomes the UTF-8 text of its bytes.
pub fn decode_url_str(url: &str) -> (r: Result<String, DecodeError>)
    ensures
        match r {
            Ok(t) => decoded(url@) == Ok::<Seq<char>, DecodeError>(t@),
            Err(e) => decoded(url@) == Err::<Seq<char>, DecodeError>(e),
        },
{
    let mut decoder = Decoder::new();
    for c in iter: url.chars()
        invariant
            iter.seq() == url@,
            decode_run(url@.take(iter.index() as int)) == Ok::<DecodeProgress, DecodeError>(decoder@),
            decoder.wf(),
    {
        assert(url@.take(iter.index() + 1).drop_last() =~= url@.take(iter.index() as int));
        match decoder.process_char(c) {
            Ok(()) => {},
            Err(e) => {
                proof {
                    lemma_error_persists(url@, iter.index() + 1);
                }
                return Err(e);
            },
        }
    }
    assert(url@.take(url@.len() as int) =~= url@);
    decoder.finalize()
}

/// An underscore stands for a space.
pub proof fn lemma_underscore_is_space()
    ensures
        decoded(seq!['_']) == Ok::<Seq<char>, DecodeError>(seq![' ']),
{
    let s = seq!['_'];
    assert(s.drop_last() =~= Seq::<char>::empty());
    assert(decode_run(s.drop_last()) == Ok::<DecodeProgress, DecodeError>(
        (Seq::empty(), Seq::empty(), DecoderState::Reading),
    ));
    assert(Seq::<char>::empty().push(' ') =~= seq![' ']);
}

/// The configurations after an escape sign and one or two more characters,
/// following text that decoded cleanly.
proof fn lemma_escape_prefixes(p: Seq<char>, out: Seq<char>, a: char, b: char)
    requires
        decode_run(p) == Ok::<DecodeProgress, DecodeError>((out, Seq::empty(), DecoderState::Reading)),
    ensures
        decode_run(p + seq!['%']) == Ok::<DecodeProgress, DecodeError>(
            (out, Seq::empty(), DecoderState::Parsing),
        ),
        decode_run(p + seq!['%', a]) == Ok::<DecodeProgress, DecodeError>(
            (out, seq![a], DecoderState::Parsing),
        ),
        decode_run(p + seq!['%', a, b]) == Ok::<DecodeProgress, DecodeError>(
            (out, seq![a, b], DecoderState::ParseReady),
        ),
{
    let s1 = p + seq!['%'];
    let s2 = p + seq!['%', a];
    let s3 = p + seq!['%', a, b];
    assert(s1.drop_last() =~= p);
    assert(s2.drop_last() =~= s1);
    assert(s3.drop_last() =~= s2);
    assert(s1.last() == '%');
    assert(s2.last() == a);
    assert(s3.last() == b);
    assert(Seq::<char>::empty().push(a) =~= seq![a]);
    assert(seq![a].push(b) =~= seq![a, b]);
}

/// A two-character escape that ends the input, after text that decoded
/// cleanly, yields the text of the byte it writes, or the error that the
/// pair gives: a hex-value error for a non-hexadecimal pair and a UTF-8
/// error for a byte that is no UTF-8 text on its own.
pub proof fn lemma_trailing_escape(p: Seq<char>, out: Seq<char>, a: char, b: char)
    requires
        decode_run(p) == Ok::<DecodeProgress, DecodeError>((out, Seq::empty(), DecoderState::Reading)),
    ensures
        decoded(p + seq!['%', a, b]) == match hex_text(seq![a, b]) {
            Ok(t) => Ok::<Seq<char>, DecodeError>(out + t),
            Err(e) => Err(e),
        },
        (hex_digit_value(a) is None || hex_digit_value(b) is None) ==> decoded(p + seq!['%', a, b])
            == Err::<Seq<char>, DecodeError>(DecodeError::HexNotValidByte),
        (hex_digit_value(a) is Some && hex_digit_value(b) is Some && !valid_utf8(
            hex_bytes(seq![a, b]),
        )) ==> decoded(p + seq!['%', a, b]) == Err::<Seq<char>, DecodeError>(
            DecodeError::ByteVecNotUtf8,
        ),
{
    lemma_escape_prefixes(p, out, a, b);
    if hex_digit_value(a) is None {
        assert(seq![a, b][0] == a);
        assert(!all_hex_digits(seq![a, b]));
    }
    if hex_digit_value(b) is None {
        assert(seq![a, b][1] == b);
        assert(!all_hex_digits(seq![a, b]));
    }
    if hex_digit_value(a) is Some && hex_digit_value(b) is Some {
        let h = seq![a, b];
        assert forall|i: int| 0 <= i < h.len() implies (#[trigger] hex_digit_value(h[i])) is Some by {
            if i == 0 {
                assert(h[i] == a);
            } else {
                assert(h[i] == b);
            }
        }
        assert(all_hex_digits(h));
    }
}

/// An escape whose hex run ends the input with an odd number of characters
/// is incomplete.
pub proof fn lemma_trailing_odd_run(p: Seq<char>, out: Seq<char>, c: char)
    requires
        decode_run(p) == Ok::<DecodeProgress, DecodeError>((out, Seq::empty(), DecoderState::Reading)),
    ensures
        decoded(p + seq!['%']) == Err::<Seq<char>, DecodeError>(DecodeError::IncompleteParse),
        decoded(p + seq!['%', c]) == Err::<Seq<char>, DecodeError>(DecodeError::IncompleteParse),
{
    lemma_escape_prefixes(p, out, c, c);
}

/// Once the transducer has failed on a prefix, it fails the same way on the
/// whole input.
proof fn lemma_error_persists(s: Seq<char>, n: int)
    requires
        0 <= n <= s.len(),
        decode_run(s.take(n)) is Err,
    ensures
        decode_run(s) == decode_run(s.take(n)),
    decreases s.len() - n,
{
    if n < s.len() {
        assert(s.take(n + 1).drop_last() =~= s.take(n));
        lemma_error_persists(s, n + 1);
    } else {
        assert(s.take(n) =~= s);
    }
}

struct Decoder {
    output_buffer: String,
    parse_buffer: Vec<char>,
    state: DecoderState,
}

impl View for Decoder {
    type V = DecodeProgress;

    closed spec fn view(&self) -> DecodeProgress {
        (self.output_buffer@, self.parse_buffer@, self.state)
    }
}

impl Decoder {
    spec fn wf(&self) -> bool {
        self.state == DecoderState::Reading ==> self.parse_buffer@.len() == 0
    }

    fn new() -> (d: Self)
        ensures
            d@ == (Seq::<char>::empty(), Seq::<char>::empty(), DecoderState::Reading),
            d.wf(),
    {
        Decoder { output_buffer: String::new(), parse_buffer: Vec::new(), state: DecoderState::Reading }
    }

    fn process_char(&mut self, c: char) -> (r: Result<(), DecodeError>)
        requires
            old(self).wf(),
        ensures
            match r {
                Ok(()) => decode_step(old(self)@, c) == Ok::<DecodeProgress, DecodeError>(
                    final(self)@,
                ) && final(self).wf(),
                Err(e) => decode_step(old(self)@, c) == Err::<DecodeProgress, DecodeError>(e),
            },
    {
        match self.state {
            DecoderState::Reading => {
                if c == '%' {
                    self.state = DecoderState::Parsing;
                } else if c == '_' {
                    push_char(&mut self.output_buffer, ' ');
                } else {
                    push_char(&mut self.output_buffer, c);
                }
            },
            DecoderState::Parsing => {
                self.parse_buffer.push(c);
                if self.parse_buffer.len() % 2 == 0 {
                    self.state = DecoderState::ParseReady;
                }
            },
            DecoderState::ParseReady => {
                if c == '%' {
                    self.state = DecoderState::Parsing;
                } else {
                    let parsed = Self::hex_string_to_unicode(&self.parse_buffer)?;
                    self.output_buffer.append(parsed.as_str());
                    self.parse_buffer.clear();
                    push_char(&mut self.output_buffer, c);
                    self.state = DecoderState::Reading;
                }
            },
        }
        Ok(())
    }

    fn hex_string_to_unicode(hex_code: &Vec<char>) -> (r: Result<String, DecodeError>)
        ensures
            match r {
                Ok(t) => hex_text(hex_code@) == Ok::<Seq<char>, DecodeError>(t@),
                Err(e) => hex_text(hex_code@) == Err::<Seq<char>, DecodeError>(e),
            },
    {
        if hex_code.len() % 2 != 0 {
            return Err(DecodeError::OddLengthHexString);
        }
        let ghost h = hex_code@;
        let mut bytes: Vec<u8> = Vec::with_capacity(hex_code.len() / 2);
        let mut i: usize = 0;
        while i < hex_code.len()
            invariant
                h == hex_code@,
                h.len() % 2 == 0,
                i % 2 == 0,
                i <= h.len(),
                bytes@.len() == i / 2,
                forall|j: int| 0 <= j < i ==> (#[trigger] hex_digit_value(h[j])) is Some,
                forall|k: int| 0 <= k < i / 2 ==> bytes@[k] == #[trigger] hex_bytes(h)[k],
            decreases h.len() - i,
        {
            let hi = hex_digit(hex_code[i]);
            let lo = hex_digit(hex_code[i + 1]);
            match (hi, lo) {
                (Some(a), Some(b)) => {
                    assert(hex_bytes(h)[(i / 2) as int] == (a * 16 + b) as u8);
                    bytes.push(a * 16 + b);
                },
                _ => {
                    assert(!all_hex_digits(h));
                    return Err(DecodeError::HexNotValidByte);
                },
            }
            i = i + 2;
        }
        assert(bytes@ =~= hex_bytes(h));
        match utf8_string(bytes) {
            Some(t) => Ok(t),
            None => Err(DecodeError::ByteVecNotUtf8),
        }
    }

    fn finalize(self) -> (r: Result<String, DecodeError>)
        ensures
            match r {
                Ok(t) => decode_finish(self@) == Ok::<Seq<char>, DecodeError>(t@),
                Err(e) => decode_finish(self@) == Err::<Seq<char>, DecodeError>(e),
            },
    {
        let mut output = self.output_buffer;
        match self.state {
            DecoderState::Reading => Ok(output),
            DecoderState::Parsing => Err(DecodeError::IncompleteParse),
            DecoderState::ParseReady => {
                let parsed = Self::hex_string_to_unicode(&self.parse_buffer)?;
                output.append(parsed.as_str());
                Ok(output)
            },
        }
    }
}

/// The value of one hexadecimal digit.
fn hex_digit(c: char) -> (r: Option<u8>)
    ensures
        match hex_digit_value(c) {
            Some(v) => r == Some(v as u8) && v < 16,
            None => r is None,
        },
{
    if '0' <= c && c <= '9' {
        Some((c as u32 - '0' as u32) as u8)
    } else if 'a' <= c && c <= 'f' {
        Some((c as u32 - 'a' as u32 + 10) as u8)
    } else if 'A' <= c && c <= 'F' {
        Some((c as u32 - 'A' as u32 + 10) as u8)
    } else {
        None
    }
}

/// Relies on `String::push`: appends one character.
#[verifier::external_body]
pub(crate) fn push_char(s: &mut String, c: char)
    ensures
        final(s)@ == old(s)@.push(c),
{
    s.push(c)
}

/// Relies on `String::from_utf8`: it accepts exactly the valid UTF-8 byte
/// sequences and yields the text they encode.
#[verifier::external_body]
fn utf8_string(bytes: Vec<u8>) -> (r: Option<String>)
    ensures
        r is Some <==> valid_utf8(bytes@),
        r matches Some(t) ==> t@ == decode_utf8(bytes@),
{
    String::from_utf8(bytes).ok()
}

} // verus!
