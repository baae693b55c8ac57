//! The listener side of the supervisor's event protocol: announcing
//! readiness, reading one frame, and acknowledging it.
use vstd::prelude::*;
use vstd::string::*;
use vstd::utf8::*;

use crate::codec::{decode_line, index_of, parse_token_set, TokenSet};
use crate::number::{decimal_bytes, parse_usize, parse_usize_spec, push_decimal};
use crate::text::utf8_text;

verus! {

/// The bytes of `READY\n`.
pub open spec fn ready_bytes() -> Seq<u8> {
    seq![82u8, 69u8, 65u8, 68u8, 89u8, 10u8]
}

/// The bytes of `OK`.
pub open spec fn ok_bytes() -> Seq<u8> {
    seq![79u8, 75u8]
}

/// The bytes of `FAIL`.
pub open spec fn fail_bytes() -> Seq<u8> {
    seq![70u8, 65u8, 73u8, 76u8]
}

/// A result reply: `RESULT <n>\n<body>`, `n` being the body's length in bytes.
pub open spec fn result_frame(body: Seq<u8>) -> Seq<u8> {
    seq![82u8, 69u8, 83u8, 85u8, 76u8, 84u8, 32u8] + decimal_bytes(body.len()) + seq![10u8]
        + body
}

/// Why a frame could not be read.
#[derive(Debug, Clone, Copy, PartialEq, Eq)]
pub enum ProtocolError {
    /// The header line is not UTF-8.
    InvalidUtf8,
    /// A header token has no colon.
    Malformed,
    /// The headers hold no `len`.
    MissingLength,
    /// The `len` header is not an unsigned number.
    BadLength,
    /// The input ends before the payload does.
    ShortRead,
}

/// What a header line gives: its tokens and the payload length.
pub open spec fn header_outcome(line: Seq<u8>) -> Result<
    (Map<Seq<char>, Seq<char>>, nat),
    ProtocolError,
> {
    if !valid_utf8(line) {
        Err(ProtocolError::InvalidUtf8)
    } else {
        match decode_line(decode_utf8(line)) {
            None => Err(ProtocolError::Malformed),
            Some(h) => if !h.contains_key("len"@) {
                Err(ProtocolError::MissingLength)
            } else {
                match parse_usize_spec(h["len"@]) {
                    None => Err(ProtocolError::BadLength),
                    Some(n) => Ok((h, n)),
                }
            },
        }
    }
}

/// The length of the first line of `b`, its newline included; all of `b`
/// when it holds no newline.
pub open spec fn line_end(b: Seq<u8>) -> nat {
    let k = index_of(b, 10u8);
    if k < b.len() {
        k + 1
    } else {
        b.len()
    }
}

/// What reading one frame from `input` gives: the headers, the payload, and
/// how many bytes the frame takes.
pub open spec fn frame_outcome(input: Seq<u8>) -> Result<
    (Map<Seq<char>, Seq<char>>, Seq<u8>, nat),
    ProtocolError,
> {
    let k = line_end(input);
    match header_outcome(input.take(k as int)) {
        Err(e) => Err(e),
        Ok((h, n)) => if k + n <= input.len() {
            Ok((h, input.subrange(k as int, (k + n) as int), k + n))
        } else {
            Err(ProtocolError::ShortRead)
        },
    }
}

/// Decodes a header line and reads its `len` header.
pub fn parse_header(line: Vec<u8>) -> (r: Result<(TokenSet, usize), ProtocolError>)
    ensures
        match r {
            Ok((h, n)) => h.wf() && header_outcome(line@) == Ok::<_, ProtocolError>((h@, n as nat)),
            Err(e) => header_outcome(line@) == Err::<(Map<Seq<char>, Seq<char>>, nat), _>(e),
        },
{
    let text = match utf8_text(line) {
        Some(t) => t,
        None => {
            return Err(ProtocolError::InvalidUtf8);
        },
    };
    let headers = match parse_token_set(text.as_str()) {
        Ok(h) => h,
        Err(_) => {
            return Err(ProtocolError::Malformed);
        },
    };
    let n = match headers.get("len") {
        Some(v) => match parse_usize(v.as_str()) {
            Some(n) => n,
            None => {
                return Err(ProtocolError::BadLength);
            },
        },
        None => {
            return Err(ProtocolError::MissingLength);
        },
    };
    Ok((headers, n))
}

/// Input bytes of which a prefix has been read.
pub struct InputBuffer {
    data: Vec<u8>,
    pos: usize,
}

impl View for InputBuffer {
    type V = Seq<u8>;

    /// The bytes not read yet.
    closed spec fn view(&self) -> Seq<u8> {
        self.data@.skip(self.pos as int)
    }
}

impl InputBuffer {
    /// The read position lies within the data.
    pub closed spec fn wf(&self) -> bool {
        self.pos <= self.data@.len()
    }

    /// A buffer of which nothing has been read.
    pub fn new(data: Vec<u8>) -> (r: InputBuffer)
        ensures
            r.wf(),
            r@ == data@,
    {
        let r = InputBuffer { data, pos: 0 };
        assert(r.data@.skip(0) =~= r.data@);
        r
    }
}

/// The bytes of `data` from `from` up to `to`.
fn copy_range(data: &Vec<u8>, from: usize, to: usize) -> (r: Vec<u8>)
    requires
        from <= to <= data@.len(),
    ensures
        r@ == data@.subrange(from as int, to as int),
{
    let mut r: Vec<u8> = Vec::new();
    let mut i: usize = from;
    while i < to
        invariant
            from <= i <= to <= data@.len(),
            r@ == data@.subrange(from as int, i as int),
        decreases to - i,
    {
        r.push(data[i]);
        assert(r@ =~= data@.subrange(from as int, i + 1));
        i += 1;
    }
    r
}

/// The listener's half of the protocol. It keeps no state between cycles.
pub struct EventListenerProtocol {}

impl EventListenerProtocol {
    /// Announces readiness, then reads one frame: a header line of tokens
    /// holding `len`, and exactly that many payload bytes after it.
    pub fn wait(&self, input: &mut InputBuffer, output: &mut Vec<u8>) -> (r: Result<
        (TokenSet, Vec<u8>),
        ProtocolError,
    >)
        requires
            old(input).wf(),
        ensures
            final(input).wf(),
            final(output)@ == old(output)@ + ready_bytes(),
            match r {
                Ok((h, p)) => h.wf() && match frame_outcome(old(input)@) {
                    Ok((m, q, k)) => m == h@ && q == p@ && final(input)@ == old(input)@.skip(
                        k as int,
                    ),
                    Err(_) => false,
                },
                Err(e) => frame_outcome(old(input)@) == Err::<(Map<Seq<char>, Seq<char>>, Seq<u8>, nat), _>(e)
                    && final(input)@ == old(input)@,
            },
    {
        let _ = self.ready(output);
        let ghost rest = input@;
        let start = input.pos;
        let len = input.data.len();
        let mut k: usize = start;
        while k < len && input.data[k] != 10u8
            invariant
                start <= k <= len,
                len == input.data@.len(),
                forall|j: int| start <= j < k ==> input.data@[j] != 10u8,
            decreases len - k,
        {
            k += 1;
        }
        proof {
            assert(rest =~= input.data@.skip(start as int));
            assert forall|j: int| 0 <= j < k - start implies rest[j] != 10u8 by {
                assert(rest[j] == input.data@[j + start]);
            }
            crate::codec::lemma_index_of(rest, 10u8, k - start);
        }
        let end = if k < len {
            k + 1
        } else {
            len
        };
        let line = copy_range(&input.data, start, end);
        assert(line@ =~= rest.take(line_end(rest) as int));
        match parse_header(line) {
            Err(e) => Err(e),
            Ok((headers, n)) => {
                if n > len - end {
                    return Err(ProtocolError::ShortRead);
                }
                let payload = copy_range(&input.data, end, end + n);
                input.pos = end + n;
                proof {
                    assert(payload@ =~= rest.subrange(line_end(rest) as int, line_end(rest) + n));
                    assert(input@ =~= rest.skip(line_end(rest) + n));
                }
                Ok((headers, payload))
            },
        }
    }

    /// Announces readiness: appends `READY\n`.
    pub fn ready(&self, output: &mut Vec<u8>) -> (r: Result<(), ProtocolError>)
        ensures
            r is Ok,
            final(output)@ == old(output)@ + ready_bytes(),
    {
        output.push(82u8);
        output.push(69u8);
        output.push(65u8);
        output.push(68u8);
        output.push(89u8);
        output.push(10u8);
        assert(final(output)@ =~= old(output)@ + ready_bytes());
        Ok(())
    }

    /// Acknowledges the frame as handled: appends `RESULT 2\nOK`.
    pub fn ok(&self, output: &mut Vec<u8>) -> (r: Result<(), ProtocolError>)
        ensures
            r is Ok,
            final(output)@ == old(output)@ + result_frame(ok_bytes()),
    {
        proof {
            broadcast use vstd::string::group_string_axioms;

            reveal_strlit("OK");
            assert("OK"@ =~= seq!['O', 'K']);
            assert(is_ascii("OK"));
            assert("OK".spec_bytes() =~= ok_bytes());
        }
        self.send("OK", output)
    }

    /// Acknowledges the frame as failed: appends `RESULT 4\nFAIL`.
    pub fn fail(&self, output: &mut Vec<u8>) -> (r: Result<(), ProtocolError>)
        ensures
            r is Ok,
            final(output)@ == old(output)@ + result_frame(fail_bytes()),
    {
        proof {
            broadcast use vstd::string::group_string_axioms;

            reveal_strlit("FAIL");
            assert("FAIL"@ =~= seq!['F', 'A', 'I', 'L']);
            assert(is_ascii("FAIL"));
            assert("FAIL".spec_bytes() =~= fail_bytes());
        }
        self.send("FAIL", output)
    }

    fn send(&self, data: &str, output: &mut Vec<u8>) -> (r: Result<(), ProtocolError>)
        ensures
            r is Ok,
            final(output)@ == old(output)@ + result_frame(data.spec_bytes()),
    {
        let bytes = data.as_bytes();
        output.push(82u8);
        output.push(69u8);
        output.push(83u8);
        output.push(85u8);
        output.push(76u8);
        output.push(84u8);
        output.push(32u8);
        push_decimal(output, bytes.len());
        output.push(10u8);
        let ghost head = output@;
        let mut i: usize = 0;
        while i < bytes.len()
            invariant
                i <= bytes@.len(),
                output@ == head + bytes@.take(i as int),
            decreases bytes@.len() - i,
        {
            output.push(bytes[i]);
            assert(bytes@.take(i + 1) =~= bytes@.take(i as int).push(bytes@[i as int]));
            i += 1;
        }
        assert(bytes@.take(i as int) =~= bytes@);
        assert(final(output)@ =~= old(output)@ + result_frame(data.spec_bytes()));
        Ok(())
    }
}

} // verus!
