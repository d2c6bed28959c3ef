//! Framing of log entries in logfiles.
//!
//! Logfiles use a simple format able to store any data: new entries are
//! concatenated to older ones, and each entry is an array of bytes where the
//! first 4 bytes hold the size of the data in big-endian, and the rest is the
//! data.

use vstd::prelude::*;

verus! {

/// The big-endian bytes of a 32-bit integer.
pub open spec fn be32(n: u32) -> Seq<u8> {
    seq![(n >> 24) as u8, (n >> 16) as u8, (n >> 8) as u8, n as u8]
}

/// The 32-bit integer read from four big-endian bytes.
pub open spec fn be32_val(b0: u8, b1: u8, b2: u8, b3: u8) -> u32 {
    ((b0 as u32) << 24) | ((b1 as u32) << 16) | ((b2 as u32) << 8) | (b3 as u32)
}

pub proof fn lemma_be32_roundtrip(n: u32)
    ensures
        be32_val(be32(n)[0], be32(n)[1], be32(n)[2], be32(n)[3]) == n,
{
    assert(((((n >> 24) as u8) as u32) << 24) | ((((n >> 16) as u8) as u32) << 16) | ((((n
        >> 8) as u8) as u32) << 8) | (((n as u8)) as u32) == n) by (bit_vector);
}

/// A framed entry: its length in four big-endian bytes, then its payload.
pub open spec fn spec_frame(payload: Seq<u8>) -> Seq<u8>
    recommends
        payload.len() <= u32::MAX,
{
    be32(payload.len() as u32) + payload
}

/// The outcome of parsing a logfile's bytes: the payloads of the complete
/// frames, in order, and the remaining bytes of a trailing partial frame.
pub ghost struct FramesOut {
    pub entries: Seq<Seq<u8>>,
    pub rest: Seq<u8>,
}

/// Parse framed entries from the front of the input: each frame is four
/// big-endian length bytes followed by that many payload bytes. Parsing stops
/// at the first incomplete frame, whose bytes are the rest.
pub open spec fn spec_parse_frames(input: Seq<u8>) -> FramesOut
    decreases input.len(),
{
    if input.len() < 4 {
        FramesOut { entries: seq![], rest: input }
    } else {
        let n = be32_val(input[0], input[1], input[2], input[3]) as int;
        if input.len() - 4 < n {
            FramesOut { entries: seq![], rest: input }
        } else {
            let e = input.subrange(4, 4 + n);
            let r = spec_parse_frames(input.subrange(4 + n, input.len() as int));
            FramesOut { entries: seq![e] + r.entries, rest: r.rest }
        }
    }
}

/// Law: framed entries parse back, in front of anything that follows.
pub proof fn lemma_parse_frame(payload: Seq<u8>, rest: Seq<u8>)
    requires
        payload.len() <= u32::MAX,
    ensures
        spec_parse_frames(spec_frame(payload) + rest) == (FramesOut {
            entries: seq![payload] + spec_parse_frames(rest).entries,
            rest: spec_parse_frames(rest).rest,
        }),
{
    let whole = spec_frame(payload) + rest;
    let n = payload.len() as int;
    lemma_be32_roundtrip(payload.len() as u32);
    assert(whole[0] == be32(payload.len() as u32)[0]);
    assert(whole[1] == be32(payload.len() as u32)[1]);
    assert(whole[2] == be32(payload.len() as u32)[2]);
    assert(whole[3] == be32(payload.len() as u32)[3]);
    assert(be32_val(whole[0], whole[1], whole[2], whole[3]) == n);
    assert(whole.subrange(4, 4 + n) =~= payload);
    assert(whole.subrange(4 + n, whole.len() as int) =~= rest);
}

pub type Parsed = Vec<u8>;

#[derive(Debug, PartialEq, Eq, Structural, Clone, Copy)]
pub enum EncodeError {
    MaximumSizeReached,
}

pub type EncodeResult = Result<Vec<u8>, EncodeError>;

/// Encode logfile entries into self-contained entries (entries that can be
/// inserted to and read from the logfile).
pub struct Encoder {}

impl Encoder {
    /// Create a new encoder.
    pub fn new() -> Self {
        Self {}
    }

    /// Encode an entry to be appended to a logfile. Return an error exactly
    /// when the data is too big to be framed (the maximum length is
    /// 2^32 - 1 bytes).
    pub fn encode(&self, entry: &[u8]) -> (r: EncodeResult)
        ensures
            r is Ok <==> entry@.len() <= u32::MAX,
            r is Ok ==> r.unwrap()@ == spec_frame(entry@),
    {
        if entry.len() > 0xFFFF_FFFFusize {
            return Err(EncodeError::MaximumSizeReached);
        }
        let n = entry.len() as u32;
        let mut out: Vec<u8> = Vec::new();
        out.push(#[verifier::truncate] ((n >> 24) as u8));
        out.push(#[verifier::truncate] ((n >> 16) as u8));
        out.push(#[verifier::truncate] ((n >> 8) as u8));
        out.push(#[verifier::truncate] (n as u8));
        let mut i: usize = 0;
        while i < entry.len()
            invariant
                0 <= i <= entry@.len(),
                out@ == be32(entry@.len() as u32) + entry@.subrange(0, i as int),
            decreases entry@.len() - i,
        {
            out.push(*vstd::slice::slice_index_get(entry, i));
            proof {
                assert(be32(entry@.len() as u32) + entry@.subrange(0, i + 1) =~= (be32(
                    entry@.len() as u32,
                ) + entry@.subrange(0, i as int)).push(entry@[i as int]));
            }
            i = i + 1;
        }
        proof {
            assert(entry@.subrange(0, entry@.len() as int) =~= entry@);
        }
        Ok(out)
    }
}

#[derive(Debug, PartialEq)]
pub enum ParseError<'a> {
    CorruptedContent,
    Incomplete(Vec<Parsed>, &'a [u8]),
}

pub type ParseResult<'a> = Result<Vec<Parsed>, ParseError<'a>>;

/// Parse entries from the binary content of logfiles.
pub struct Parser {}

impl Parser {
    /// Create a new parser.
    pub fn new() -> Self {
        Self {}
    }

    /// Parse the given input, returning a collection of entries. If the input
    /// is incomplete (it ends inside a frame), return a
    /// [`ParseError::Incomplete`] holding the entries parsed so far and the
    /// input left from the start of the incomplete frame. No input is
    /// corrupted at this layer: [`ParseError::CorruptedContent`] is never
    /// returned.
    pub fn parse<'a>(&self, input: &'a [u8]) -> (r: ParseResult<'a>)
        ensures
            ({
                let out = spec_parse_frames(input@);
                match r {
                    Ok(entries) => out.rest.len() == 0 && entries.deep_view() == out.entries,
                    Err(ParseError::Incomplete(entries, rest)) => out.rest.len() > 0
                        && entries.deep_view() == out.entries && rest@ == out.rest,
                    Err(ParseError::CorruptedContent) => false,
                }
            }),
    {
        let mut entries: Vec<Parsed> = Vec::new();
        let mut i: usize = 0;
        let len = input.len();
        proof {
            assert(input@.subrange(0, len as int) =~= input@);
            assert(entries.deep_view() =~= Seq::<Seq<u8>>::empty());
            assert(Seq::<Seq<u8>>::empty() + spec_parse_frames(input@).entries
                =~= spec_parse_frames(input@).entries);
        }
        loop
            invariant
                0 <= i <= len,
                len == input@.len(),
                spec_parse_frames(input@).entries == entries.deep_view() + spec_parse_frames(
                    input@.subrange(i as int, len as int),
                ).entries,
                spec_parse_frames(input@).rest == spec_parse_frames(
                    input@.subrange(i as int, len as int),
                ).rest,
            decreases len - i,
        {
            let ghost suffix = input@.subrange(i as int, len as int);
            if len - i == 0 {
                proof {
                    assert(entries.deep_view() + spec_parse_frames(suffix).entries
                        =~= entries.deep_view());
                }
                return Ok(entries);
            }
            if len - i < 4 {
                proof {
                    assert(entries.deep_view() + spec_parse_frames(suffix).entries
                        =~= entries.deep_view());
                }
                return Err(ParseError::Incomplete(entries, vstd::slice::slice_subrange(
                    input,
                    i,
                    len,
                )));
            }
            let n = ((*vstd::slice::slice_index_get(input, i) as u32) << 24) | ((
            *vstd::slice::slice_index_get(input, i + 1) as u32) << 16) | ((
            *vstd::slice::slice_index_get(input, i + 2) as u32) << 8) | (
            *vstd::slice::slice_index_get(input, i + 3) as u32);
            let n = n as usize;
            proof {
                assert(suffix[0] == input@[i as int] && suffix[1] == input@[i + 1] && suffix[2]
                    == input@[i + 2] && suffix[3] == input@[i + 3]);
            }
            if len - i - 4 < n {
                proof {
                    assert(entries.deep_view() + spec_parse_frames(suffix).entries
                        =~= entries.deep_view());
                }
                return Err(ParseError::Incomplete(entries, vstd::slice::slice_subrange(
                    input,
                    i,
                    len,
                )));
            }
            let entry = vstd::slice::slice_to_vec(vstd::slice::slice_subrange(
                input,
                i + 4,
                i + 4 + n,
            ));
            let ghost dv = entries.deep_view();
            proof {
                assert(suffix.subrange(4, 4 + n as int) =~= input@.subrange(
                    i + 4,
                    i + 4 + n as int,
                ));
                assert(suffix.subrange(4 + n as int, suffix.len() as int) =~= input@.subrange(
                    i + 4 + n as int,
                    len as int,
                ));
            }
            entries.push(entry);
            proof {
                let tail = spec_parse_frames(input@.subrange(i + 4 + n as int, len as int));
                assert(entry.deep_view() =~= entry@);
                assert(entries.deep_view() =~= dv.push(entry@));
                assert(spec_parse_frames(suffix).entries == seq![entry@] + tail.entries);
                assert(dv + (seq![entry@] + tail.entries) =~= dv.push(entry@) + tail.entries);
            }
            i = i + 4 + n;
        }
    }
}


#[derive(Debug, PartialEq, Eq, Structural, Clone, Copy)]
pub enum ReadError {
    CorruptedFile,
    UnreadableFile,
}

/// Read logfile entries incrementally: buffer the bytes of a trailing
/// partial frame between chunks, and hand out each complete frame's payload
/// once. The caller feeds the file's bytes chunk by chunk, in order, and
/// closes the reader at end of file, where leftover bytes mean a truncated
/// final frame.
pub struct Reader {
    pub pending: Vec<u8>,
}

impl Reader {
    /// Create a new reader with nothing pending.
    pub fn new() -> (r: Reader)
        ensures
            r.pending@ == Seq::<u8>::empty(),
    {
        Reader { pending: Vec::new() }
    }

    /// Feed the next chunk of the file. Return the payloads of the frames
    /// completed by it; the bytes of a trailing partial frame stay pending.
    pub fn feed(&mut self, chunk: &[u8]) -> (r: Vec<Parsed>)
        ensures
            ({
                let out = spec_parse_frames(old(self).pending@ + chunk@);
                r.deep_view() == out.entries && final(self).pending@ == out.rest
            }),
    {
        let mut combined: Vec<u8> = Vec::new();
        combined.extend_from_slice(self.pending.as_slice());
        combined.extend_from_slice(chunk);
        proof {
            assert(combined@ =~= old(self).pending@ + chunk@);
        }
        let parser = Parser::new();
        match parser.parse(combined.as_slice()) {
            Ok(entries) => {
                self.pending = Vec::new();
                proof {
                    assert(self.pending@ =~= spec_parse_frames(old(self).pending@ + chunk@).rest);
                }
                entries
            },
            Err(ParseError::Incomplete(entries, rest)) => {
                self.pending = vstd::slice::slice_to_vec(rest);
                entries
            },
            Err(ParseError::CorruptedContent) => {
                proof {
                    assert(false);
                }
                Vec::new()
            },
        }
    }

    /// Close the reader at end of file. Leftover pending bytes mean the file
    /// ends inside a frame: the file is corrupted.
    pub fn finish(&self) -> (r: Result<(), ReadError>)
        ensures
            r is Ok <==> self.pending@.len() == 0,
            r is Err ==> r.unwrap_err() == ReadError::CorruptedFile,
    {
        if self.pending.len() > 0 {
            Err(ReadError::CorruptedFile)
        } else {
            Ok(())
        }
    }
}

} // verus!