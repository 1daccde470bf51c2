//! Cloning over smart HTTP, as a state machine without I/O.
//!
//! The caller sends what `next_request` asks for to the repository's URL, hands the body of the
//! response to `on_response`, and goes on until there is no request left. `finish` then gives the
//! result.
//!
//! ```text
//! GET  <url>/info/refs?service=git-upload-pack   (the capabilities)
//! POST <url>/git-upload-pack                     (the refs)
//! POST <url>/git-upload-pack                     (the pack)
//! ```

use vstd::prelude::*;

use crate::bundle::{bundle_bytes, heads_for, ref_list};
use crate::bytes::{owned, same};
use crate::err::{Error, Result};
use crate::history::{holds, unique_of};
use crate::object::oid_views;
use crate::oid::Oid;
use crate::protov2::{
    advertisement, fetch_bytes, fetch_request, ls_refs_bytes, ls_refs_request, parse_advertisement,
    parse_fetch_response, parse_ls_refs, ref_views, refs_from, sections, RefEntry, RefView,
};

verus! {

/// Where the capabilities are asked for, relative to the repository's URL.
pub const INFO_REFS_PATH: &'static str = "info/refs?service=git-upload-pack";

/// Where commands are sent to, relative to the repository's URL.
pub const UPLOAD_PACK_PATH: &'static str = "git-upload-pack";

/// The type of the body of a command.
pub const REQUEST_CONTENT_TYPE: &'static str = "application/x-git-upload-pack-request";

/// The header that every request carries: its name and its value.
pub const PROTOCOL_HEADER: (&'static str, &'static str) = ("Git-Protocol", "version=2");

/// An HTTP request to send; the path is relative to the repository's URL.
#[derive(Debug, PartialEq, Eq)]
pub enum Request {
    Get { path: &'static str },
    Post { path: &'static str, body: Vec<u8> },
}

/// An HTTP request.
pub enum RequestView {
    Get { path: Seq<char> },
    Post { path: Seq<char>, body: Seq<u8> },
}

impl View for Request {
    type V = RequestView;

    open spec fn view(&self) -> RequestView {
        match self {
            Request::Get { path } => RequestView::Get { path: path@ },
            Request::Post { path, body } => RequestView::Post { path: path@, body: body@ },
        }
    }
}

#[derive(Debug, Clone)]
pub struct CloneOptions {
    /// How deep the history goes; `None` for all of it.
    pub depth: Option<u32>,
    /// The full name of the one ref to fetch; `None` for all refs.
    pub want_ref: Option<Vec<u8>>,
}

impl Default for CloneOptions {
    fn default() -> (r: Self)
        ensures
            r.depth is None && r.want_ref is None,
    {
        CloneOptions { depth: None, want_ref: None }
    }
}

impl CloneOptions {
    /// The name of the one ref to fetch.
    pub open spec fn wanted(&self) -> Option<Seq<u8>> {
        match self.want_ref {
            Some(name) => Some(name@),
            None => None,
        }
    }
}

#[derive(Clone, Copy, PartialEq, Eq, Structural)]
pub enum State {
    InfoRefs,
    LsRefs,
    Fetch,
    Done,
}

/// A clone that is under way.
pub struct CloneView {
    pub state: State,
    pub depth: Option<u32>,
    pub wanted: Option<Seq<u8>>,
    pub refs: Seq<RefView>,
    pub shallow: Seq<Seq<u8>>,
    pub pack: Seq<u8>,
}

/// The refs that are wanted.
pub open spec fn matching(refs: Seq<RefView>, wanted: Option<Seq<u8>>) -> Seq<RefView>
    decreases refs.len(),
{
    if refs.len() == 0 {
        refs
    } else {
        let rest = matching(refs.drop_last(), wanted);
        if wanted is None || wanted == Some(refs.last().name) {
            rest.push(refs.last())
        } else {
            rest
        }
    }
}

pub open spec fn ref_ids(refs: Seq<RefView>) -> Seq<Seq<u8>> {
    refs.map_values(|e: RefView| e.oid)
}

/// The objects to ask for, each once.
pub open spec fn wants(refs: Seq<RefView>, wanted: Option<Seq<u8>>) -> Seq<Seq<u8>> {
    unique_of(ref_ids(matching(refs, wanted)))
}

/// The request to send in a state.
pub open spec fn request_of(c: CloneView) -> Option<RequestView> {
    match c.state {
        State::InfoRefs => Some(RequestView::Get { path: INFO_REFS_PATH@ }),
        State::LsRefs => Some(
            RequestView::Post { path: UPLOAD_PACK_PATH@, body: ls_refs_bytes(Seq::empty()) },
        ),
        State::Fetch => Some(
            RequestView::Post {
                path: UPLOAD_PACK_PATH@,
                body: fetch_bytes(wants(c.refs, c.wanted), c.depth),
            },
        ),
        State::Done => None,
    }
}

/// What a response leads to.
pub open spec fn responded(c: CloneView, body: Seq<u8>) -> (Result<()>, CloneView) {
    match c.state {
        State::InfoRefs => match advertisement(body) {
            Err(e) => (Err(e), c),
            Ok(adv) => if !adv.ls_refs || !adv.fetch {
                (Err(Error::Unsupported("server without ls-refs/fetch")), c)
            } else if c.depth is Some && !adv.fetch_shallow {
                (Err(Error::Unsupported("server without shallow fetch")), c)
            } else {
                (Ok(()), CloneView { state: State::LsRefs, ..c })
            },
        },
        State::LsRefs => match refs_from(body, Seq::empty()) {
            Err(e) => (Err(e), c),
            Ok(refs) => if wants(refs, c.wanted).len() == 0 {
                (Err(Error::Corrupt("no matching ref to fetch")), CloneView { refs, ..c })
            } else {
                (Ok(()), CloneView { refs, state: State::Fetch, ..c })
            },
        },
        State::Fetch => match sections(body, Seq::empty()) {
            Err(e) => (Err(e), c),
            Ok(f) => (
                Ok(()),
                CloneView { shallow: f.shallow, pack: f.pack, state: State::Done, ..c },
            ),
        },
        State::Done => (Err(Error::Corrupt("response after completion")), c),
    }
}

pub struct Clone {
    state: State,
    opts: CloneOptions,
    refs: Vec<RefEntry>,
    shallow: Vec<Oid>,
    pack: Vec<u8>,
}

impl View for Clone {
    type V = CloneView;

    closed spec fn view(&self) -> CloneView {
        CloneView {
            state: self.state,
            depth: self.opts.depth,
            wanted: self.opts.wanted(),
            refs: ref_views(self.refs@),
            shallow: oid_views(self.shallow@),
            pack: self.pack@,
        }
    }
}

/// What was cloned; [`crate::bundle::write`] takes it as it is.
pub struct CloneOutcome {
    pub refs: Vec<RefEntry>,
    /// The commits where the history was cut off.
    pub shallow: Vec<Oid>,
    pub pack: Vec<u8>,
}

/// The names of refs and what they point to.
pub open spec fn ref_pairs(refs: Seq<RefView>) -> Seq<(Seq<u8>, Seq<u8>)> {
    refs.map_values(|e: RefView| (e.name, e.oid))
}

impl CloneOutcome {
    /// The bundle that holds what was fetched.
    pub fn bundle(&self) -> (r: Result<Vec<u8>>)
        ensures
            match heads_for(
                ref_pairs(ref_views(self.refs@)),
                oid_views(self.shallow@),
                self.pack@,
            ) {
                Err(e) => r matches Err(f) && f == e,
                Ok(heads) => r matches Ok(data) && data@ == bundle_bytes(heads, self.pack@),
            },
    {
        let ghost all = ref_pairs(ref_views(self.refs@));
        let mut refs: Vec<(&[u8], Oid)> = Vec::new();
        let mut i: usize = 0;
        while i < self.refs.len()
            invariant
                i <= self.refs@.len(),
                refs@.len() == i,
                all == ref_pairs(ref_views(self.refs@)),
                forall|k: int|
                    0 <= k < i ==> ((#[trigger] refs@[k]).0@, refs@[k].1@) == all[k],
            decreases self.refs.len() - i,
        {
            assert(all[i as int] == (self.refs@[i as int].name@, self.refs@[i as int].oid@));
            refs.push((self.refs[i].name.as_slice(), self.refs[i].oid));
            i += 1;
        }
        assert(ref_list(refs@) =~= all);
        crate::bundle::write(refs.as_slice(), self.shallow.as_slice(), self.pack.as_slice())
    }
}

fn copy_ref(e: &RefEntry) -> (r: RefEntry)
    ensures
        r@ == e@,
{
    RefEntry {
        name: owned(e.name.as_slice()),
        oid: e.oid,
        peeled: e.peeled,
        symref_target: match &e.symref_target {
            Some(name) => Some(owned(name.as_slice())),
            None => None,
        },
    }
}

impl Clone {
    /// Whether a ref is wanted.
    fn wanted(&self, e: &RefEntry) -> (r: bool)
        ensures
            r == (self@.wanted is None || self@.wanted == Some(e@.name)),
    {
        match &self.opts.want_ref {
            Some(name) => same(name.as_slice(), e.name.as_slice()),
            None => true,
        }
    }

    /// The objects to ask for, each once.
    fn wants(&self) -> (r: Vec<Oid>)
        ensures
            oid_views(r@) == wants(self@.refs, self@.wanted),
    {
        let ghost all = self@.refs;
        let ghost wanted = self@.wanted;
        let mut out: Vec<Oid> = Vec::new();
        let mut i: usize = 0;
        assert(oid_views(out@) =~= Seq::<Seq<u8>>::empty());
        assert(all.take(0) =~= Seq::<RefView>::empty());
        assert(ref_ids(matching(all.take(0), wanted)) =~= Seq::<Seq<u8>>::empty());
        while i < self.refs.len()
            invariant
                i <= self.refs@.len(),
                all == self@.refs,
                all == ref_views(self.refs@),
                wanted == self@.wanted,
                oid_views(out@) == wants(all.take(i as int), wanted),
            decreases self.refs.len() - i,
        {
            let e = &self.refs[i];
            let ghost before = out@;
            let ghost now = matching(all.take(i as int), wanted);
            assert(all.take(i + 1).drop_last() =~= all.take(i as int));
            assert(all.take(i + 1).last() == e@);
            if self.wanted(e) {
                proof {
                    let ids = ref_ids(now.push(e@));
                    assert(ids.drop_last() =~= ref_ids(now));
                    assert(ids.last() == e@.oid);
                }
                if !holds(out.as_slice(), &e.oid) {
                    out.push(e.oid);
                    assert(oid_views(out@) =~= oid_views(before).push(e.oid@));
                }
            }
            i += 1;
        }
        assert(all.take(i as int) =~= all);
        out
    }

    pub fn new(opts: CloneOptions) -> (r: Self)
        ensures
            r@ == (CloneView {
                state: State::InfoRefs,
                depth: opts.depth,
                wanted: opts.wanted(),
                refs: Seq::empty(),
                shallow: Seq::empty(),
                pack: Seq::empty(),
            }),
    {
        let r = Clone {
            state: State::InfoRefs,
            opts,
            refs: Vec::new(),
            shallow: Vec::new(),
            pack: Vec::new(),
        };
        assert(r@.refs =~= Seq::<RefView>::empty());
        assert(r@.shallow =~= Seq::<Seq<u8>>::empty());
        r
    }

    /// The next request to send; `None` when the clone is complete.
    pub fn next_request(&self) -> (r: Option<Request>)
        ensures
            match r {
                Some(request) => request_of(self@) == Some(request@),
                None => request_of(self@) is None,
            },
    {
        match self.state {
            State::InfoRefs => Some(Request::Get { path: INFO_REFS_PATH }),
            State::LsRefs => {
                let none: [&[u8]; 0] = [];
                assert(crate::bytes::views(none@) =~= Seq::<Seq<u8>>::empty());
                Some(Request::Post { path: UPLOAD_PACK_PATH, body: ls_refs_request(none.as_slice()) })
            },
            State::Fetch => {
                let list = self.wants();
                Some(
                    Request::Post {
                        path: UPLOAD_PACK_PATH,
                        body: fetch_request(list.as_slice(), self.opts.depth),
                    },
                )
            },
            State::Done => None,
        }
    }

    /// Takes the body of the response to the last request.
    pub fn on_response(&mut self, body: &[u8]) -> (r: Result<()>)
        ensures
            (r, final(self)@) == responded(old(self)@, body@),
    {
        match self.state {
            State::InfoRefs => {
                let adv = parse_advertisement(body)?;
                if !adv.ls_refs || !adv.fetch {
                    return Err(Error::Unsupported("server without ls-refs/fetch"));
                }
                if self.opts.depth.is_some() && !adv.fetch_shallow {
                    return Err(Error::Unsupported("server without shallow fetch"));
                }
                self.state = State::LsRefs;
            },
            State::LsRefs => {
                self.refs = parse_ls_refs(body)?;
                if self.wants().len() == 0 {
                    return Err(Error::Corrupt("no matching ref to fetch"));
                }
                self.state = State::Fetch;
            },
            State::Fetch => {
                let response = parse_fetch_response(body)?;
                self.shallow = response.shallow;
                self.pack = response.pack;
                self.state = State::Done;
            },
            State::Done => {
                return Err(Error::Corrupt("response after completion"));
            },
        }
        Ok(())
    }

    pub fn is_done(&self) -> (r: bool)
        ensures
            r == (self@.state is Done),
    {
        match self.state {
            State::Done => true,
            _ => false,
        }
    }

    /// The result, once the clone is complete.
    pub fn finish(self) -> (r: Result<CloneOutcome>)
        ensures
            match r {
                Ok(outcome) => self@.state is Done && ref_views(outcome.refs@) == matching(
                    self@.refs,
                    self@.wanted,
                ) && oid_views(outcome.shallow@) == self@.shallow && outcome.pack@ == self@.pack,
                Err(e) => !(self@.state is Done) && e == Error::Corrupt("clone not finished"),
            },
    {
        if !self.is_done() {
            return Err(Error::Corrupt("clone not finished"));
        }
        let ghost all = self@.refs;
        let ghost wanted = self@.wanted;
        let mut refs: Vec<RefEntry> = Vec::new();
        let mut i: usize = 0;
        assert(all.take(0) =~= Seq::<RefView>::empty());
        assert(ref_views(refs@) =~= Seq::<RefView>::empty());
        while i < self.refs.len()
            invariant
                i <= self.refs@.len(),
                all == ref_views(self.refs@),
                wanted == self@.wanted,
                ref_views(refs@) == matching(all.take(i as int), wanted),
            decreases self.refs.len() - i,
        {
            let e = &self.refs[i];
            let ghost before = refs@;
            assert(all.take(i + 1).drop_last() =~= all.take(i as int));
            assert(all.take(i + 1).last() == e@);
            if self.wanted(e) {
                let copy = copy_ref(e);
                refs.push(copy);
                assert(ref_views(refs@) =~= ref_views(before).push(e@));
            }
            i += 1;
        }
        assert(all.take(i as int) =~= all);
        Ok(CloneOutcome { refs, shallow: self.shallow, pack: self.pack })
    }
}

// --- the course of a clone ---------------------------------------------------------------------------------

/// There is a request as long as the clone is not complete, and none after that.
pub proof fn requests_until_done(c: CloneView)
    ensures
        request_of(c) is None <==> c.state is Done,
{
}

/// A clone is complete after three responses that were accepted: the refs of the second one are
/// kept, the commits of the third one and its pack.
pub proof fn three_responses_complete(c: CloneView, first: Seq<u8>, second: Seq<u8>, third: Seq<u8>)
    requires
        c.state is InfoRefs,
        responded(c, first).0 is Ok,
        responded(responded(c, first).1, second).0 is Ok,
        responded(responded(responded(c, first).1, second).1, third).0 is Ok,
    ensures
        ({
            let end = responded(responded(responded(c, first).1, second).1, third).1;
            &&& end.state is Done
            &&& end.wanted == c.wanted
            &&& refs_from(second, Seq::empty()) == Ok::<_, Error>(end.refs)
            &&& sections(third, Seq::empty()) matches Ok(f) && f.shallow == end.shallow && f.pack == end.pack
        }),
{
}

/// A response that is refused leaves the state as it was: the same step can be tried again.
pub proof fn refused_response_keeps_the_state(c: CloneView, body: Seq<u8>)
    requires
        responded(c, body).0 is Err,
    ensures
        responded(c, body).1.state == c.state,
{
}

} // verus!
