//! Pushing over smart HTTP, as a state machine without I/O.
//!
//! ```text
//! GET  <url>/info/refs?service=git-receive-pack   (the refs of the server)
//! POST <url>/git-receive-pack                     (the update: commands and a pack)
//! ```
//!
//! The caller brings the pack. Objects that the server has already do no harm in it.

use vstd::prelude::*;

use crate::bytes::{owned, same};
use crate::err::{Error, Result};
use crate::oid::Oid;
use crate::protov0::{
    command_views, commands_fit, fit, named_views, parse_receive_advertisement, parse_report_status, push_bytes,
    push_request, receive_advertisement, report_status, result_views, succeeded, Command, CommandView,
    PushReport, ReportView, ResultView, ZERO_OID,
};

verus! {

/// Where the refs are asked for, relative to the repository's URL.
pub const INFO_REFS_PATH: &'static str = "info/refs?service=git-receive-pack";

/// Where the update is sent to, relative to the repository's URL.
pub const RECEIVE_PACK_PATH: &'static str = "git-receive-pack";

/// The type of the body of the update.
pub const REQUEST_CONTENT_TYPE: &'static str = "application/x-git-receive-pack-request";

/// An HTTP request to send; the path is relative to the repository's URL.
#[derive(Debug, PartialEq, Eq)]
pub enum Request {
    Get { path: &'static str },
    Post { path: &'static str, body: Vec<u8> },
}

/// An HTTP request.
pub enum RequestView {
    Get { path: Seq<char> },
    Post { path: Seq<char>, body: Seq<u8> },
}

impl View for Request {
    type V = RequestView;

    open spec fn view(&self) -> RequestView {
        match self {
            Request::Get { path } => RequestView::Get { path: path@ },
            Request::Post { path, body } => RequestView::Post { path: path@, body: body@ },
        }
    }
}

#[derive(Clone, Copy, PartialEq, Eq, Structural)]
pub enum State {
    InfoRefs,
    Send { side_band_64k: bool },
    Done,
}

/// A push that is under way.
pub struct PushView {
    pub state: State,
    /// The names of refs and what they are to point to.
    pub updates: Seq<(Seq<u8>, Seq<u8>)>,
    pub pack: Seq<u8>,
    pub commands: Seq<CommandView>,
    pub report: Option<ReportView>,
}

/// What the first ref with the name points to; zeros if there is none.
pub open spec fn old_value(refs: Seq<(Seq<u8>, Seq<u8>)>, name: Seq<u8>) -> Seq<u8>
    decreases refs.len(),
{
    if refs.len() == 0 {
        ZERO_OID@
    } else if refs[0].0 == name {
        refs[0].1
    } else {
        old_value(refs.skip(1), name)
    }
}

/// The commands for the first `n` updates: one for each ref that changes.
pub open spec fn commands_for(
    updates: Seq<(Seq<u8>, Seq<u8>)>,
    refs: Seq<(Seq<u8>, Seq<u8>)>,
    n: nat,
) -> Seq<CommandView>
    decreases n,
{
    if n == 0 {
        Seq::empty()
    } else {
        let rest = commands_for(updates, refs, (n - 1) as nat);
        let (name, new) = updates[n - 1];
        let old = old_value(refs, name);
        if old == new {
            rest
        } else {
            rest.push(CommandView { old, new, name })
        }
    }
}

/// How many results are there for a name.
pub open spec fn results_for(results: Seq<ResultView>, name: Seq<u8>) -> nat
    decreases results.len(),
{
    if results.len() == 0 {
        0
    } else {
        results_for(results.drop_last(), name) + if results.last().0 == name {
            1nat
        } else {
            0nat
        }
    }
}

/// Every command has exactly one result.
pub open spec fn all_reported(commands: Seq<CommandView>, results: Seq<ResultView>) -> bool {
    forall|i: int|
        0 <= i < commands.len() ==> results_for(results, (#[trigger] commands[i]).name) == 1
}

/// The request to send in a state.
pub open spec fn request_of(p: PushView) -> Option<RequestView> {
    match p.state {
        State::InfoRefs => Some(RequestView::Get { path: INFO_REFS_PATH@ }),
        State::Send { side_band_64k } => Some(
            RequestView::Post {
                path: RECEIVE_PACK_PATH@,
                body: push_bytes(p.commands, side_band_64k, p.pack),
            },
        ),
        State::Done => None,
    }
}

/// What a response leads to.
pub open spec fn responded(p: PushView, body: Seq<u8>) -> (Result<()>, PushView) {
    match p.state {
        State::InfoRefs => match receive_advertisement(body) {
            Err(e) => (Err(e), p),
            Ok(adv) => if !adv.report_status {
                (Err(Error::Unsupported("server without report-status")), p)
            } else {
                let commands = p.commands + commands_for(p.updates, adv.refs, p.updates.len());
                let state = if commands.len() == 0 {
                    State::Done
                } else {
                    State::Send { side_band_64k: adv.side_band_64k }
                };
                (Ok(()), PushView { commands, state, ..p })
            },
        },
        State::Send { side_band_64k } => match report_status(body, side_band_64k) {
            Err(e) => (Err(e), p),
            Ok(report) => if all_reported(p.commands, report.results) {
                (Ok(()), PushView { report: Some(report), state: State::Done, ..p })
            } else {
                (Err(Error::Corrupt("report-status missing ref result")), p)
            },
        },
        State::Done => (Err(Error::Corrupt("response after completion")), p),
    }
}

pub struct Push {
    state: State,
    updates: Vec<(Vec<u8>, Oid)>,
    pack: Vec<u8>,
    commands: Vec<Command>,
    report: Option<PushReport>,
}

impl View for Push {
    type V = PushView;

    closed spec fn view(&self) -> PushView {
        PushView {
            state: self.state,
            updates: named_views(self.updates@),
            pack: self.pack@,
            commands: command_views(self.commands@),
            report: match self.report {
                Some(report) => Some(report@),
                None => None,
            },
        }
    }
}

/// The lines of the commands that are to be sent fit into frames.
pub open spec fn sendable(p: PushView) -> bool {
    p.state matches State::Send { side_band_64k } ==> commands_fit(p.commands, side_band_64k)
}

/// What became of a push.
pub struct PushOutcome {
    /// Every ref was as it should be, and nothing was sent.
    pub up_to_date: bool,
    /// The report on what was sent.
    pub report: Option<PushReport>,
}

fn find_old(refs: &Vec<(Vec<u8>, Oid)>, name: &[u8]) -> (r: Oid)
    ensures
        r@ == old_value(named_views(refs@), name@),
{
    let ghost all = named_views(refs@);
    let mut i: usize = 0;
    assert(all.skip(0) =~= all);
    while i < refs.len()
        invariant
            i <= refs@.len(),
            all == named_views(refs@),
            old_value(all, name@) == old_value(all.skip(i as int), name@),
        decreases refs.len() - i,
    {
        assert(all.skip(i as int)[0] == (refs@[i as int].0@, refs@[i as int].1@));
        assert(all.skip(i as int).skip(1) =~= all.skip(i + 1));
        if same(refs[i].0.as_slice(), name) {
            return refs[i].1;
        }
        i += 1;
    }
    Oid::from_bytes(ZERO_OID)
}

fn count_results(report: &PushReport, name: &[u8]) -> (r: usize)
    ensures
        r == results_for(report@.results, name@),
{
    let ghost all = result_views(report.results@);
    let mut n: usize = 0;
    let mut i: usize = 0;
    assert(all.take(0) =~= Seq::<ResultView>::empty());
    while i < report.results.len()
        invariant
            i <= report.results@.len(),
            n <= i,
            all == result_views(report.results@),
            n == results_for(all.take(i as int), name@),
        decreases report.results.len() - i,
    {
        assert(all.take(i + 1).drop_last() =~= all.take(i as int));
        assert(all.take(i + 1).last().0 == report.results@[i as int].0@);
        if same(report.results[i].0.as_slice(), name) {
            n += 1;
        }
        i += 1;
    }
    assert(all.take(i as int) =~= all);
    n
}

impl Push {
    pub fn new(updates: Vec<(Vec<u8>, Oid)>, pack: Vec<u8>) -> (r: Self)
        ensures
            r@ == (PushView {
                state: State::InfoRefs,
                updates: named_views(updates@),
                pack: pack@,
                commands: Seq::empty(),
                report: None,
            }),
    {
        let r = Push { state: State::InfoRefs, updates, pack, commands: Vec::new(), report: None };
        assert(r@.commands =~= Seq::<CommandView>::empty());
        r
    }

    /// Whether the lines of the commands fit into frames.
    pub fn is_sendable(&self) -> (r: bool)
        ensures
            r == sendable(self@),
    {
        match self.state {
            State::Send { side_band_64k } => fit(self.commands.as_slice(), side_band_64k),
            _ => true,
        }
    }

    /// The next request to send; `None` when the push is complete.
    pub fn next_request(&self) -> (r: Option<Request>)
        requires
            sendable(self@),
        ensures
            match r {
                Some(request) => request_of(self@) == Some(request@),
                None => request_of(self@) is None,
            },
    {
        match self.state {
            State::InfoRefs => Some(Request::Get { path: INFO_REFS_PATH }),
            State::Send { side_band_64k } => Some(
                Request::Post {
                    path: RECEIVE_PACK_PATH,
                    body: push_request(
                        self.commands.as_slice(),
                        side_band_64k,
                        self.pack.as_slice(),
                    ),
                },
            ),
            State::Done => None,
        }
    }

    /// Takes the body of the response to the last request.
    pub fn on_response(&mut self, body: &[u8]) -> (r: Result<()>)
        ensures
            (r, final(self)@) == responded(old(self)@, body@),
    {
        match self.state {
            State::InfoRefs => {
                let adv = parse_receive_advertisement(body)?;
                if !adv.report_status {
                    return Err(Error::Unsupported("server without report-status"));
                }
                let ghost updates = named_views(self.updates@);
                let ghost refs = named_views(adv.refs@);
                let ghost start = command_views(self.commands@);
                let mut i: usize = 0;
                assert(start =~= start + commands_for(updates, refs, 0));
                while i < self.updates.len()
                    invariant
                        i <= self.updates@.len(),
                        self.updates == old(self).updates,
                        self.pack == old(self).pack,
                        self.report == old(self).report,
                        self.state == old(self).state,
                        updates == named_views(self.updates@),
                        refs == named_views(adv.refs@),
                        command_views(self.commands@) == start + commands_for(updates, refs, i as nat),
                    decreases self.updates.len() - i,
                {
                    let new = self.updates[i].1;
                    let old = find_old(&adv.refs, self.updates[i].0.as_slice());
                    let ghost before = self.commands@;
                    assert(updates[i as int] == (self.updates@[i as int].0@, new@));
                    if old != new {
                        let name = owned(self.updates[i].0.as_slice());
                        let command = Command { old, new, name };
                        self.commands.push(command);
                        assert(command_views(self.commands@) =~= command_views(before).push(command@));
                    }
                    assert(command_views(self.commands@) =~= start + commands_for(
                        updates,
                        refs,
                        (i + 1) as nat,
                    ));
                    i += 1;
                }
                if self.commands.len() == 0 {
                    self.state = State::Done;
                } else {
                    self.state = State::Send { side_band_64k: adv.side_band_64k };
                }
            },
            State::Send { side_band_64k } => {
                let report = parse_report_status(body, side_band_64k)?;
                // A response that breaks off must not pass for a success.
                let ghost commands = command_views(self.commands@);
                let mut i: usize = 0;
                while i < self.commands.len()
                    invariant
                        i <= self.commands@.len(),
                        *self == *old(self),
                        commands == command_views(self.commands@),
                        commands == self@.commands,
                        self@.state == (State::Send { side_band_64k }),
                        report_status(body@, side_band_64k) == Ok::<_, Error>(report@),
                        forall|k: int|
                            0 <= k < i ==> results_for(
                                report@.results,
                                (#[trigger] commands[k]).name,
                            ) == 1,
                    decreases self.commands.len() - i,
                {
                    assert(commands[i as int].name == self.commands@[i as int].name@);
                    if count_results(&report, self.commands[i].name.as_slice()) != 1 {
                        assert(!all_reported(commands, report@.results));
                        return Err(Error::Corrupt("report-status missing ref result"));
                    }
                    i += 1;
                }
                self.report = Some(report);
                self.state = State::Done;
            },
            State::Done => {
                return Err(Error::Corrupt("response after completion"));
            },
        }
        Ok(())
    }

    pub fn is_done(&self) -> (r: bool)
        ensures
            r == (self@.state is Done),
    {
        match self.state {
            State::Done => true,
            _ => false,
        }
    }

    /// What became of the push, once it is complete.
    pub fn finish(self) -> (r: Result<PushOutcome>)
        ensures
            match r {
                Ok(outcome) => self@.state is Done && outcome.up_to_date == (self@.report is None) && (
                match outcome.report {
                    Some(report) => self@.report == Some(report@),
                    None => self@.report is None,
                }),
                Err(e) => !(self@.state is Done) && e == Error::Corrupt("push not finished"),
            },
    {
        if !self.is_done() {
            return Err(Error::Corrupt("push not finished"));
        }
        Ok(PushOutcome { up_to_date: self.report.is_none(), report: self.report })
    }
}

// --- the course of a push ------------------------------------------------------------------------------------

/// There is a request as long as the push is not complete, and none after that.
pub proof fn requests_until_done(p: PushView)
    ensures
        request_of(p) is None <==> p.state is Done,
{
}

/// A response that is refused changes nothing: in particular a report that does not say exactly
/// once of every ref what became of it.
pub proof fn refused_response_changes_nothing(p: PushView, body: Seq<u8>)
    requires
        responded(p, body).0 is Err,
    ensures
        responded(p, body).1 == p,
{
}

/// The name of a result.
proof fn lemma_result_for(results: Seq<ResultView>, name: Seq<u8>)
    requires
        results_for(results, name) > 0,
    ensures
        exists|i: int| 0 <= i < results.len() && (#[trigger] results[i]).0 == name,
    decreases results.len(),
{
    if results.last().0 != name {
        lemma_result_for(results.drop_last(), name);
        let i = choose|i: int|
            0 <= i < results.drop_last().len() && (#[trigger] results.drop_last()[i]).0 == name;
        assert(results[i].0 == name);
    } else {
        assert(results[results.len() - 1].0 == name);
    }
}

/// A report of success speaks of every ref that was to change: each was updated.
pub proof fn success_covers_every_command(p: PushView, body: Seq<u8>, i: int)
    requires
        p.state is Send,
        responded(p, body).0 is Ok,
        responded(p, body).1.report matches Some(report) && succeeded(report),
        0 <= i < p.commands.len(),
    ensures
        responded(p, body).1.report matches Some(report) && report.results.contains(
            (p.commands[i].name, None::<Seq<u8>>),
        ),
{
    let report = responded(p, body).1.report->0;
    let name = p.commands[i].name;
    assert(results_for(report.results, name) == 1);
    lemma_result_for(report.results, name);
    let k = choose|k: int| 0 <= k < report.results.len() && (#[trigger] report.results[k]).0 == name;
    assert(report.results[k].1 is None);
    assert(report.results[k] == (name, None::<Seq<u8>>));
}

/// A push has commands for exactly the refs whose value on the server differs from the new one, so
/// nothing is sent when there are none.
pub proof fn command_for_every_change(
    updates: Seq<(Seq<u8>, Seq<u8>)>,
    refs: Seq<(Seq<u8>, Seq<u8>)>,
    n: nat,
    i: int,
)
    requires
        0 <= i < n <= updates.len(),
    ensures
        old_value(refs, updates[i].0) != updates[i].1 <==> commands_for(updates, refs, n).contains(
            CommandView {
                old: old_value(refs, updates[i].0),
                new: updates[i].1,
                name: updates[i].0,
            },
        ),
    decreases n,
{
    let c = CommandView {
        old: old_value(refs, updates[i].0),
        new: updates[i].1,
        name: updates[i].0,
    };
    let all = commands_for(updates, refs, n);
    lemma_commands_differ(updates, refs, n);
    if c.old != c.new {
        lemma_command_in(updates, refs, n, i);
    }
}

proof fn lemma_commands_differ(updates: Seq<(Seq<u8>, Seq<u8>)>, refs: Seq<(Seq<u8>, Seq<u8>)>, n: nat)
    ensures
        forall|k: int|
            0 <= k < commands_for(updates, refs, n).len() ==> (#[trigger] commands_for(
                updates,
                refs,
                n,
            )[k]).old != commands_for(updates, refs, n)[k].new,
    decreases n,
{
    if n > 0 {
        lemma_commands_differ(updates, refs, (n - 1) as nat);
        let all = commands_for(updates, refs, n);
        let rest = commands_for(updates, refs, (n - 1) as nat);
        assert forall|k: int| 0 <= k < all.len() implies (#[trigger] all[k]).old != all[k].new by {
            if k < rest.len() {
                assert(all[k] == rest[k]);
            }
        }
    }
}

proof fn lemma_command_in(
    updates: Seq<(Seq<u8>, Seq<u8>)>,
    refs: Seq<(Seq<u8>, Seq<u8>)>,
    n: nat,
    i: int,
)
    requires
        0 <= i < n <= updates.len(),
        old_value(refs, updates[i].0) != updates[i].1,
    ensures
        commands_for(updates, refs, n).contains(
            CommandView {
                old: old_value(refs, updates[i].0),
                new: updates[i].1,
                name: updates[i].0,
            },
        ),
    decreases n,
{
    let c = CommandView {
        old: old_value(refs, updates[i].0),
        new: updates[i].1,
        name: updates[i].0,
    };
    let all = commands_for(updates, refs, n);
    let rest = commands_for(updates, refs, (n - 1) as nat);
    if i == n - 1 {
        assert(all[all.len() - 1] == c);
    } else {
        lemma_command_in(updates, refs, (n - 1) as nat, i);
        let k = choose|k: int| 0 <= k < rest.len() && rest[k] == c;
        assert(all[k] == c);
    }
}

} // verus!
