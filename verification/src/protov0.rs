//! Protocol version 0: the bodies of requests and responses for pushing.
//!
//! Version 2 has no push, so receive-pack is spoken to in version 0:
//! - the refs come from `GET $URL/info/refs?service=git-receive-pack`,
//! - the update goes to `POST $URL/git-receive-pack`: commands, a flush and a pack.

use vstd::prelude::*;

use crate::bytes::{
    after_prefix, cut, cut_at, from_index, lit, owned, same, split, strip_prefix, text,
};
use crate::err::{agrees, Error, Result};
use crate::oid::{from_hex, push_hex, to_hex, Oid};
use crate::pkt::{
    first_pkt, lemma_first_pkt, pkt_line, trim_line, trimmed, write_flush, write_line, Pkt, PktReader,
    PktView, MAX_DATA_LEN,
};
use crate::protov2::{first_announced, has_field, skip_announcement, take_band, with_band};

verus! {

/// The bytes of the id of nothing, which stands for a ref that is created or deleted.
pub const ZERO_OID: [u8; 20] = [0, 0, 0, 0, 0, 0, 0, 0, 0, 0, 0, 0, 0, 0, 0, 0, 0, 0, 0, 0];

// --- the advertisement ---------------------------------------------------------------------------------

/// What a server has and can do, as far as it is used here.
#[derive(Debug, Clone)]
pub struct ReceiveAdvertisement {
    /// The refs of the server; none in an empty repository.
    pub refs: Vec<(Vec<u8>, Oid)>,
    pub report_status: bool,
    pub side_band_64k: bool,
    pub delete_refs: bool,
}

impl Default for ReceiveAdvertisement {
    fn default() -> (r: Self)
        ensures
            r.refs@.len() == 0 && !r.report_status && !r.side_band_64k && !r.delete_refs,
    {
        ReceiveAdvertisement {
            refs: Vec::new(),
            report_status: false,
            side_band_64k: false,
            delete_refs: false,
        }
    }
}

/// What a server has and can do.
pub struct ReceiveView {
    pub refs: Seq<(Seq<u8>, Seq<u8>)>,
    pub report_status: bool,
    pub side_band_64k: bool,
    pub delete_refs: bool,
}

/// Names of refs and what they point to.
pub open spec fn named_views(s: Seq<(Vec<u8>, Oid)>) -> Seq<(Seq<u8>, Seq<u8>)> {
    s.map_values(|e: (Vec<u8>, Oid)| (e.0@, e.1@))
}

impl View for ReceiveAdvertisement {
    type V = ReceiveView;

    open spec fn view(&self) -> ReceiveView {
        ReceiveView {
            refs: named_views(self.refs@),
            report_status: self.report_status,
            side_band_64k: self.side_band_64k,
            delete_refs: self.delete_refs,
        }
    }
}

/// The refs with the one in a line. The line of an empty repository holds none.
pub open spec fn with_ref(refs: Seq<(Seq<u8>, Seq<u8>)>, line: Seq<u8>) -> Result<
    Seq<(Seq<u8>, Seq<u8>)>,
> {
    match cut(line, 32) {
        None => Err(Error::Corrupt("advertisement ref line")),
        Some((hex, name)) => match from_hex(hex) {
            Err(e) => Err(e),
            Ok(oid) => if name == lit("capabilities^{}") {
                Ok(refs)
            } else {
                Ok(refs.push((name, oid)))
            },
        },
    }
}

/// The refs in the lines up to a flush.
pub open spec fn refs_until_flush(s: Seq<u8>, refs: Seq<(Seq<u8>, Seq<u8>)>) -> Result<
    Seq<(Seq<u8>, Seq<u8>)>,
>
    decreases s.len(),
{
    proof {
        lemma_first_pkt(s);
    }
    match first_pkt(s) {
        Err(e) => Err(e),
        Ok((PktView::Flush, _)) => Ok(refs),
        Ok((PktView::Data(data), rest)) => match with_ref(refs, trimmed(data)) {
            Ok(more) => refs_until_flush(rest, more),
            Err(e) => Err(e),
        },
        Ok(_) => Err(Error::Corrupt("receive-pack advertisement")),
    }
}

/// What an advertisement says. The first line holds a ref, a zero byte and the capabilities.
pub open spec fn receive_advertisement(body: Seq<u8>) -> Result<ReceiveView> {
    match first_announced(body) {
        Err(e) => Err(e),
        Ok((PktView::Data(data), rest)) => match cut(trimmed(data), 0) {
            None => Err(Error::Corrupt("advertisement capabilities")),
            Some((line, list)) => match with_ref(Seq::empty(), line) {
                Err(e) => Err(e),
                Ok(first) => match refs_until_flush(rest, first) {
                    Err(e) => Err(e),
                    Ok(refs) => Ok(
                        ReceiveView {
                            refs,
                            report_status: split(list, 32).contains(lit("report-status")),
                            side_band_64k: split(list, 32).contains(lit("side-band-64k")),
                            delete_refs: split(list, 32).contains(lit("delete-refs")),
                        },
                    ),
                },
            },
        },
        Ok(_) => Err(Error::Corrupt("receive-pack advertisement")),
    }
}

fn push_ref_line(refs: &mut Vec<(Vec<u8>, Oid)>, line: &[u8]) -> (r: Result<()>)
    ensures
        match r {
            Ok(()) => with_ref(named_views(old(refs)@), line@) == Ok::<_, Error>(
                named_views(final(refs)@),
            ),
            Err(e) => with_ref(named_views(old(refs)@), line@) == Err::<Seq<(Seq<u8>, Seq<u8>)>, _>(e),
        },
{
    let Some((hex, name)) = cut_at(line, 32) else {
        return Err(Error::Corrupt("advertisement ref line"));
    };
    let oid = Oid::from_hex(hex)?;
    if !same(name, text("capabilities^{}")) {
        let ghost before = refs@;
        refs.push((owned(name), oid));
        assert(named_views(refs@) =~= named_views(before).push((name@, oid@)));
    }
    Ok(())
}

/// Parses the response to `info/refs?service=git-receive-pack`.
pub fn parse_receive_advertisement(body: &[u8]) -> (x: Result<ReceiveAdvertisement>)
    ensures
        agrees(x, receive_advertisement(body@)),
{
    let mut r = PktReader::new(body);
    let Pkt::Data(data) = skip_announcement(&mut r)? else {
        return Err(Error::Corrupt("receive-pack advertisement"));
    };
    let Some((line, list)) = cut_at(trim_line(data), 0) else {
        return Err(Error::Corrupt("advertisement capabilities"));
    };
    let report_status = has_field(list, "report-status");
    let side_band_64k = has_field(list, "side-band-64k");
    let delete_refs = has_field(list, "delete-refs");
    let mut refs: Vec<(Vec<u8>, Oid)> = Vec::new();
    assert(named_views(refs@) =~= Seq::<(Seq<u8>, Seq<u8>)>::empty());
    push_ref_line(&mut refs, line)?;
    let ghost after = r@;
    let ghost first = named_views(refs@);
    loop
        invariant
            receive_advertisement(body@) == (match refs_until_flush(after, first) {
                Err(e) => Err(e),
                Ok(refs) => Ok(
                    ReceiveView { refs, report_status, side_band_64k, delete_refs },
                ),
            }),
            refs_until_flush(after, first) == refs_until_flush(r@, named_views(refs@)),
        decreases r@.len(),
    {
        proof {
            lemma_first_pkt(r@);
        }
        match r.expect_next()? {
            Pkt::Flush => {
                return Ok(ReceiveAdvertisement { refs, report_status, side_band_64k, delete_refs });
            },
            Pkt::Data(data) => {
                push_ref_line(&mut refs, trim_line(data))?;
            },
            _ => {
                return Err(Error::Corrupt("receive-pack advertisement"));
            },
        }
    }
}

// --- the update -------------------------------------------------------------------------------------------

/// The update of one ref.
#[derive(Debug, Clone, PartialEq, Eq)]
pub struct Command {
    /// What the server has now; [`ZERO_OID`] for a ref that is created.
    pub old: Oid,
    pub new: Oid,
    pub name: Vec<u8>,
}

/// The update of one ref.
pub struct CommandView {
    pub old: Seq<u8>,
    pub new: Seq<u8>,
    pub name: Seq<u8>,
}

impl View for Command {
    type V = CommandView;

    open spec fn view(&self) -> CommandView {
        CommandView { old: self.old@, new: self.new@, name: self.name@ }
    }
}

pub open spec fn command_views(s: Seq<Command>) -> Seq<CommandView> {
    s.map_values(|c: Command| c@)
}

/// The line of a command. The first one also asks for capabilities.
pub open spec fn command_line(c: CommandView, first: bool, side_band_64k: bool) -> Seq<u8> {
    let line = to_hex(c.old) + seq![32u8] + to_hex(c.new) + seq![32u8] + c.name;
    if !first {
        line
    } else if side_band_64k {
        line + seq![0u8] + lit("report-status") + lit(" side-band-64k") + lit(" agent=tig/0.1")
    } else {
        line + seq![0u8] + lit("report-status") + lit(" agent=tig/0.1")
    }
}

/// The lines of the commands from the `i`-th on.
pub open spec fn command_lines(commands: Seq<CommandView>, i: int, side_band_64k: bool) -> Seq<u8>
    decreases commands.len() - i,
{
    if i >= commands.len() {
        Seq::empty()
    } else {
        pkt_line(command_line(commands[i], i == 0, side_band_64k)) + command_lines(
            commands,
            i + 1,
            side_band_64k,
        )
    }
}

/// The body of an update: the commands, a flush and the pack as it is.
pub open spec fn push_bytes(commands: Seq<CommandView>, side_band_64k: bool, pack: Seq<u8>) -> Seq<u8> {
    command_lines(commands, 0, side_band_64k) + lit("0000") + pack
}

/// The line of every command fits into a frame.
pub open spec fn commands_fit(commands: Seq<CommandView>, side_band_64k: bool) -> bool {
    forall|i: int|
        0 <= i < commands.len() ==> command_line(#[trigger] commands[i], i == 0, side_band_64k).len()
            < MAX_DATA_LEN
}

fn push_command(out: &mut Vec<u8>, command: &Command, first: bool, side_band_64k: bool)
    requires
        command_line(command@, first, side_band_64k).len() < MAX_DATA_LEN,
    ensures
        final(out)@ == old(out)@ + pkt_line(command_line(command@, first, side_band_64k)),
{
    let line = line_of(command, first, side_band_64k);
    write_line(out, line.as_slice());
}

/// The line of a command.
fn line_of(command: &Command, first: bool, side_band_64k: bool) -> (r: Vec<u8>)
    ensures
        r@ == command_line(command@, first, side_band_64k),
{
    let mut line: Vec<u8> = Vec::new();
    push_hex(&mut line, &command.old);
    line.push(32);
    push_hex(&mut line, &command.new);
    line.push(32);
    line.extend_from_slice(command.name.as_slice());
    if first {
        line.push(0);
        line.extend_from_slice(text("report-status"));
        if side_band_64k {
            line.extend_from_slice(text(" side-band-64k"));
        }
        line.extend_from_slice(text(" agent=tig/0.1"));
    }
    assert(line@ =~= command_line(command@, first, side_band_64k));
    line
}

/// Whether the line of every command fits into a frame.
pub fn fit(commands: &[Command], side_band_64k: bool) -> (r: bool)
    ensures
        r == commands_fit(command_views(commands@), side_band_64k),
{
    let ghost all = command_views(commands@);
    let mut i: usize = 0;
    while i < commands.len()
        invariant
            i <= commands@.len(),
            all == command_views(commands@),
            forall|k: int|
                0 <= k < i ==> command_line(#[trigger] all[k], k == 0, side_band_64k).len()
                    < MAX_DATA_LEN,
        decreases commands.len() - i,
    {
        assert(all[i as int] == commands@[i as int]@);
        if line_of(&commands[i], i == 0, side_band_64k).len() >= MAX_DATA_LEN {
            return false;
        }
        i += 1;
    }
    true
}

/// The body of an update.
pub fn push_request(commands: &[Command], side_band_64k: bool, pack: &[u8]) -> (r: Vec<u8>)
    requires
        commands_fit(command_views(commands@), side_band_64k),
    ensures
        r@ == push_bytes(command_views(commands@), side_band_64k, pack@),
{
    let ghost all = command_views(commands@);
    let mut out: Vec<u8> = Vec::new();
    let mut i: usize = 0;
    assert(out@ + command_lines(all, 0, side_band_64k) =~= command_lines(all, 0, side_band_64k));
    while i < commands.len()
        invariant
            i <= commands@.len(),
            all == command_views(commands@),
            commands_fit(all, side_band_64k),
            out@ + command_lines(all, i as int, side_band_64k) == command_lines(all, 0, side_band_64k),
        decreases commands.len() - i,
    {
        let ghost before = out@;
        assert(all[i as int] == commands@[i as int]@);
        push_command(&mut out, &commands[i], i == 0, side_band_64k);
        assert(out@ + command_lines(all, i + 1, side_band_64k) =~= before + command_lines(
            all,
            i as int,
            side_band_64k,
        ));
        i += 1;
    }
    write_flush(&mut out);
    out.extend_from_slice(pack);
    assert(out@ =~= push_bytes(all, side_band_64k, pack@));
    out
}

// --- the report --------------------------------------------------------------------------------------------

/// What became of an update.
#[derive(Debug, PartialEq, Eq)]
pub struct PushReport {
    pub unpack_ok: bool,
    /// The names of refs, with the reason where one was not updated.
    pub results: Vec<(Vec<u8>, Option<Vec<u8>>)>,
}

impl Default for PushReport {
    fn default() -> (r: Self)
        ensures
            !r.unpack_ok && r.results@.len() == 0,
    {
        PushReport { unpack_ok: false, results: Vec::new() }
    }
}

/// What became of one ref: its name, and the reason where it was not updated.
pub type ResultView = (Seq<u8>, Option<Seq<u8>>);

/// What became of an update.
pub struct ReportView {
    pub unpack_ok: bool,
    pub results: Seq<ResultView>,
}

pub open spec fn result_views(s: Seq<(Vec<u8>, Option<Vec<u8>>)>) -> Seq<ResultView> {
    s.map_values(
        |e: (Vec<u8>, Option<Vec<u8>>)|
            (
                e.0@,
                match e.1 {
                    Some(reason) => Some(reason@),
                    None => None,
                },
            ),
    )
}

impl View for PushReport {
    type V = ReportView;

    open spec fn view(&self) -> ReportView {
        ReportView { unpack_ok: self.unpack_ok, results: result_views(self.results@) }
    }
}

/// The pack was taken in and every ref was updated.
pub open spec fn succeeded(report: ReportView) -> bool {
    report.unpack_ok && forall|i: int| 0 <= i < report.results.len() ==> (#[trigger] report.results[i]).1 is None
}

impl PushReport {
    /// Whether the pack was taken in and every ref was updated.
    pub fn is_success(&self) -> (r: bool)
        ensures
            r == succeeded(self@),
    {
        if !self.unpack_ok {
            return false;
        }
        let ghost all = self@.results;
        let mut i: usize = 0;
        while i < self.results.len()
            invariant
                i <= self.results@.len(),
                all == result_views(self.results@),
                forall|k: int| 0 <= k < i ==> (#[trigger] all[k]).1 is None,
            decreases self.results.len() - i,
        {
            if self.results[i].1.is_some() {
                assert(all[i as int].1 is Some);
                return false;
            }
            assert(all[i as int].1 is None);
            i += 1;
        }
        true
    }
}

/// The data of the first channel in the frames up to a flush or the end.
pub open spec fn unbanded(s: Seq<u8>, all: Seq<u8>) -> Result<Seq<u8>>
    decreases s.len(),
{
    if s.len() == 0 {
        Ok(all)
    } else {
        proof {
            lemma_first_pkt(s);
        }
        match first_pkt(s) {
            Err(e) => Err(e),
            Ok((PktView::Data(data), rest)) => match with_band(all, data) {
                Ok(more) => unbanded(rest, more),
                Err(e) => Err(e),
            },
            Ok((PktView::Delim, _)) => Err(Error::Corrupt("report-status")),
            Ok(_) => Ok(all),
        }
    }
}

/// One more line of a report. Other lines say nothing.
pub open spec fn with_report_line(report: ReportView, line: Seq<u8>) -> ReportView {
    if let Some(v) = after_prefix(line, lit("unpack ")) {
        ReportView { unpack_ok: v == lit("ok"), ..report }
    } else if let Some(v) = after_prefix(line, lit("ok ")) {
        ReportView { results: report.results.push((v, None)), ..report }
    } else if let Some(v) = after_prefix(line, lit("ng ")) {
        let (name, reason) = match cut(v, 32) {
            Some(parts) => parts,
            None => (v, Seq::empty()),
        };
        ReportView { results: report.results.push((name, Some(reason))), ..report }
    } else {
        report
    }
}

/// The lines of a report up to a flush or the end.
pub open spec fn report_from(s: Seq<u8>, report: ReportView) -> Result<ReportView>
    decreases s.len(),
{
    if s.len() == 0 {
        Ok(report)
    } else {
        proof {
            lemma_first_pkt(s);
        }
        match first_pkt(s) {
            Err(e) => Err(e),
            Ok((PktView::Flush, _)) => Ok(report),
            Ok((PktView::Data(data), rest)) => report_from(
                rest,
                with_report_line(report, trimmed(data)),
            ),
            Ok(_) => Err(Error::Corrupt("report-status")),
        }
    }
}

/// What a response to an update says. With channels the report comes in the first of them.
pub open spec fn report_status(body: Seq<u8>, side_band_64k: bool) -> Result<ReportView> {
    let none = ReportView { unpack_ok: false, results: Seq::empty() };
    if side_band_64k {
        match unbanded(body, Seq::empty()) {
            Err(e) => Err(e),
            Ok(inner) => report_from(inner, none),
        }
    } else {
        report_from(body, none)
    }
}

fn unband(body: &[u8]) -> (x: Result<Vec<u8>>)
    ensures
        agrees(x, unbanded(body@, Seq::empty())),
{
    let mut all: Vec<u8> = Vec::new();
    let mut r = PktReader::new(body);
    loop
        invariant
            unbanded(body@, Seq::empty()) == unbanded(r@, all@),
        decreases r@.len(),
    {
        proof {
            lemma_first_pkt(r@);
        }
        match r.next() {
            None => {
                return Ok(all);
            },
            Some(Err(e)) => {
                return Err(e);
            },
            Some(Ok(Pkt::Data(data))) => {
                take_band(&mut all, data)?;
            },
            Some(Ok(Pkt::Delim)) => {
                return Err(Error::Corrupt("report-status"));
            },
            Some(Ok(_)) => {
                return Ok(all);
            },
        }
    }
}

fn parse_report(body: &[u8]) -> (x: Result<PushReport>)
    ensures
        agrees(x, report_from(body@, (ReportView { unpack_ok: false, results: Seq::empty() }))),
{
    let ghost start = ReportView { unpack_ok: false, results: Seq::empty() };
    let mut report = PushReport { unpack_ok: false, results: Vec::new() };
    let mut r = PktReader::new(body);
    assert(report@.results =~= Seq::<ResultView>::empty());
    loop
        invariant
            start == (ReportView { unpack_ok: false, results: Seq::empty() }),
            report_from(body@, start) == report_from(r@, report@),
        decreases r@.len(),
    {
        proof {
            lemma_first_pkt(r@);
        }
        match r.next() {
            None => {
                return Ok(report);
            },
            Some(Err(e)) => {
                return Err(e);
            },
            Some(Ok(Pkt::Flush)) => {
                return Ok(report);
            },
            Some(Ok(Pkt::Data(data))) => {
                let line = trim_line(data);
                let ghost before = report@.results;
                if let Some(v) = strip_prefix(line, text("unpack ")) {
                    report.unpack_ok = same(v, text("ok"));
                } else if let Some(v) = strip_prefix(line, text("ok ")) {
                    report.results.push((owned(v), None));
                    assert(report@.results =~= before.push((v@, None)));
                } else if let Some(v) = strip_prefix(line, text("ng ")) {
                    let (name, reason) = match cut_at(v, 32) {
                        Some(parts) => parts,
                        None => {
                            let none = from_index(v, v.len());
                            assert(none@ =~= Seq::<u8>::empty());
                            (v, none)
                        },
                    };
                    report.results.push((owned(name), Some(owned(reason))));
                    assert(report@.results =~= before.push((name@, Some(reason@))));
                }
            },
            Some(Ok(_)) => {
                return Err(Error::Corrupt("report-status"));
            },
        }
    }
}

/// Parses the response to an update. `side_band_64k` says whether channels were asked for.
pub fn parse_report_status(body: &[u8], side_band_64k: bool) -> (x: Result<PushReport>)
    ensures
        agrees(x, report_status(body@, side_band_64k)),
{
    if side_band_64k {
        let inner = unband(body)?;
        parse_report(inner.as_slice())
    } else {
        parse_report(body)
    }
}

} // verus!
