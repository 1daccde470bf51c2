//! pkt-lines: the frames of the protocol.
//!
//! A frame is a length in four hexadecimal digits, which counts the digits too, and data. The
//! lengths 0, 1 and 2 are separators: flush, delimiter and end of response.

use vstd::prelude::*;

use crate::bytes::{from_index, lemma_lit, lit, text};
use crate::err::{Error, Result};
use crate::oid::{digit, hex_digit, hex_val, hex_value};

verus! {

/// The most data that a frame holds.
pub const MAX_DATA_LEN: usize = 65_516;

#[derive(Debug, Clone, Copy, PartialEq, Eq)]
pub enum Pkt<'a> {
    Flush,
    Delim,
    ResponseEnd,
    Data(&'a [u8]),
}

/// The contents of a frame.
pub enum PktView {
    Flush,
    Delim,
    ResponseEnd,
    Data(Seq<u8>),
}

impl<'a> View for Pkt<'a> {
    type V = PktView;

    open spec fn view(&self) -> PktView {
        match self {
            Pkt::Flush => PktView::Flush,
            Pkt::Delim => PktView::Delim,
            Pkt::ResponseEnd => PktView::ResponseEnd,
            Pkt::Data(data) => PktView::Data(data@),
        }
    }
}

/// The length that four digits stand for.
pub open spec fn pkt_len(s: Seq<u8>) -> Option<int> {
    if hex_value(s[0]) is None || hex_value(s[1]) is None || hex_value(s[2]) is None || hex_value(
        s[3],
    ) is None {
        None
    } else {
        Some(
            ((hex_value(s[0])->0 * 16 + hex_value(s[1])->0) * 16 + hex_value(s[2])->0) * 16
                + hex_value(s[3])->0,
        )
    }
}

/// The first frame and what follows it.
pub open spec fn first_pkt(s: Seq<u8>) -> Result<(PktView, Seq<u8>)> {
    if s.len() < 4 {
        Err(Error::UnexpectedEof)
    } else {
        match pkt_len(s) {
            None => Err(Error::Corrupt("pkt-line length")),
            Some(len) => if len == 0 {
                Ok((PktView::Flush, s.skip(4)))
            } else if len == 1 {
                Ok((PktView::Delim, s.skip(4)))
            } else if len == 2 {
                Ok((PktView::ResponseEnd, s.skip(4)))
            } else if len == 3 {
                Err(Error::Corrupt("pkt-line length 0003"))
            } else if len > s.len() {
                Err(Error::UnexpectedEof)
            } else {
                Ok((PktView::Data(s.subrange(4, len)), s.skip(len)))
            },
        }
    }
}

/// A frame takes up some of the input.
pub proof fn lemma_first_pkt(s: Seq<u8>)
    ensures
        first_pkt(s) matches Ok((p, rest)) ==> rest.len() < s.len(),
{
}

/// Reads frames from the first on.
pub struct PktReader<'a> {
    rest: &'a [u8],
}

impl<'a> View for PktReader<'a> {
    type V = Seq<u8>;

    /// What was not read yet.
    closed spec fn view(&self) -> Seq<u8> {
        self.rest@
    }
}

impl<'a> PktReader<'a> {
    pub fn new(data: &'a [u8]) -> (r: Self)
        ensures
            r@ == data@,
    {
        PktReader { rest: data }
    }

    /// What was not read yet.
    pub fn rest(&self) -> (r: &'a [u8])
        ensures
            r@ == self@,
    {
        self.rest
    }

    /// The next frame; `None` at the end of the input. After an error the position is unchanged.
    pub fn next(&mut self) -> (r: Option<Result<Pkt<'a>>>)
        ensures
            match r {
                None => old(self)@.len() == 0 && final(self)@ == old(self)@,
                Some(Ok(p)) => old(self)@.len() > 0 && first_pkt(old(self)@) == Ok::<_, Error>(
                    (p@, final(self)@),
                ),
                Some(Err(e)) => old(self)@.len() > 0 && first_pkt(old(self)@) == Err::<
                    (PktView, Seq<u8>),
                    _,
                >(e) && final(self)@ == old(self)@,
            },
    {
        if self.rest.len() == 0 {
            return None;
        }
        Some(self.expect_next())
    }

    /// The next frame; the end of the input is an error.
    pub fn expect_next(&mut self) -> (r: Result<Pkt<'a>>)
        ensures
            match r {
                Ok(p) => first_pkt(old(self)@) == Ok::<_, Error>((p@, final(self)@)),
                Err(e) => first_pkt(old(self)@) == Err::<(PktView, Seq<u8>), _>(e) && final(self)@ == old(
                    self,
                )@,
            },
    {
        let s = self.rest;
        if s.len() < 4 {
            return Err(Error::UnexpectedEof);
        }
        let (Ok(a), Ok(b), Ok(c), Ok(d)) = (hex_val(s[0]), hex_val(s[1]), hex_val(s[2]), hex_val(s[3])) else {
            return Err(Error::Corrupt("pkt-line length"));
        };
        let len: usize = ((a as usize * 16 + b as usize) * 16 + c as usize) * 16 + d as usize;
        if len == 3 {
            return Err(Error::Corrupt("pkt-line length 0003"));
        }
        if len < 3 {
            self.rest = from_index(s, 4);
            return Ok(
                if len == 0 {
                    Pkt::Flush
                } else if len == 1 {
                    Pkt::Delim
                } else {
                    Pkt::ResponseEnd
                },
            );
        }
        if len > s.len() {
            return Err(Error::UnexpectedEof);
        }
        self.rest = from_index(s, len);
        Ok(Pkt::Data(&s[4..len]))
    }
}

// --- writing -----------------------------------------------------------------------------------

/// A number in four hexadecimal digits.
pub open spec fn hex4(n: int) -> Seq<u8> {
    seq![
        hex_digit(n / 4096 % 16),
        hex_digit(n / 256 % 16),
        hex_digit(n / 16 % 16),
        hex_digit(n % 16),
    ]
}

/// A frame with data.
pub open spec fn pkt_data(data: Seq<u8>) -> Seq<u8> {
    hex4(data.len() as int + 4) + data
}

/// A frame with a line of text.
pub open spec fn pkt_line(line: Seq<u8>) -> Seq<u8> {
    pkt_data(line.push(10))
}

fn push_hex4(out: &mut Vec<u8>, n: usize)
    ensures
        final(out)@ == old(out)@ + hex4(n as int),
{
    out.push(digit((n / 4096 % 16) as u8));
    out.push(digit((n / 256 % 16) as u8));
    out.push(digit((n / 16 % 16) as u8));
    out.push(digit((n % 16) as u8));
    assert(out@ =~= old(out)@ + hex4(n as int));
}

/// Writes a frame with data.
pub fn write_data(out: &mut Vec<u8>, data: &[u8])
    requires
        data@.len() <= MAX_DATA_LEN,
    ensures
        final(out)@ == old(out)@ + pkt_data(data@),
{
    push_hex4(out, data.len() + 4);
    out.extend_from_slice(data);
    assert(out@ =~= old(out)@ + pkt_data(data@));
}

/// Writes a frame with a line of text, to which a line feed is added.
pub fn write_line(out: &mut Vec<u8>, line: &[u8])
    requires
        line@.len() < MAX_DATA_LEN,
    ensures
        final(out)@ == old(out)@ + pkt_line(line@),
{
    push_hex4(out, line.len() + 5);
    out.extend_from_slice(line);
    out.push(10);
    assert(out@ =~= old(out)@ + pkt_line(line@));
}

pub fn write_flush(out: &mut Vec<u8>)
    ensures
        final(out)@ == old(out)@ + lit("0000"),
{
    out.extend_from_slice(text("0000"));
}

pub fn write_delim(out: &mut Vec<u8>)
    ensures
        final(out)@ == old(out)@ + lit("0001"),
{
    out.extend_from_slice(text("0001"));
}

/// A line without the line feed at its end, where it has one.
pub open spec fn trimmed(data: Seq<u8>) -> Seq<u8> {
    if data.len() > 0 && data.last() == 10 {
        data.drop_last()
    } else {
        data
    }
}

/// A line without the line feed at its end, where it has one.
pub fn trim_line(data: &[u8]) -> (r: &[u8])
    ensures
        r@ == trimmed(data@),
{
    if data.len() > 0 && data[data.len() - 1] == 10 {
        let r = &data[0..data.len() - 1];
        assert(r@ =~= trimmed(data@));
        r
    } else {
        data
    }
}

// --- what was written is read --------------------------------------------------------------------

proof fn lemma_hex4(n: int, rest: Seq<u8>)
    requires
        0 <= n < 65536,
    ensures
        pkt_len(hex4(n) + rest) == Some(n),
{
    let s = hex4(n) + rest;
    assert(s[0] == hex4(n)[0] && s[1] == hex4(n)[1] && s[2] == hex4(n)[2] && s[3] == hex4(n)[3]);
    assert(n == 4096 * (n / 4096 % 16) + 256 * (n / 256 % 16) + 16 * (n / 16 % 16) + n % 16);
}

/// A frame that was written is read, whatever follows it.
pub proof fn data_round_trip(data: Seq<u8>, rest: Seq<u8>)
    requires
        data.len() <= MAX_DATA_LEN,
    ensures
        first_pkt(pkt_data(data) + rest) == Ok::<_, Error>((PktView::Data(data), rest)),
{
    let s = pkt_data(data) + rest;
    let n = data.len() + 4;
    lemma_hex4(n as int, data + rest);
    assert(s =~= hex4(n as int) + (data + rest));
    assert(s.subrange(4, n as int) =~= data);
    assert(s.skip(n as int) =~= rest);
}

/// A line that was written is read and trimmed to itself.
pub proof fn line_round_trip(line: Seq<u8>, rest: Seq<u8>)
    requires
        line.len() < MAX_DATA_LEN,
    ensures
        first_pkt(pkt_line(line) + rest) matches Ok((PktView::Data(data), after)) && trimmed(data) == line
            && after == rest,
{
    data_round_trip(line.push(10), rest);
    assert(line.push(10).drop_last() =~= line);
}

/// The separators that were written are read.
pub proof fn separator_round_trip(rest: Seq<u8>)
    ensures
        first_pkt(lit("0000") + rest) == Ok::<_, Error>((PktView::Flush, rest)),
        first_pkt(lit("0001") + rest) == Ok::<_, Error>((PktView::Delim, rest)),
{
    reveal_strlit("0000");
    reveal_strlit("0001");
    lemma_lit("0000");
    lemma_lit("0001");
    assert(lit("0000") =~= hex4(0));
    assert(lit("0001") =~= hex4(1));
    lemma_hex4(0, rest);
    lemma_hex4(1, rest);
    assert((hex4(0) + rest).skip(4) =~= rest);
    assert((hex4(1) + rest).skip(4) =~= rest);
}

} // verus!
