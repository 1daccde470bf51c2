//! The state behind a browser's calls: numbered slots for open bundles and for clones and pushes
//! that are under way.

use vstd::prelude::*;

use crate::bundle::{bundle_bytes, heads_for, ref_list, Bundle};
use crate::bytes::owned;
use crate::clone::{
    matching, ref_pairs, request_of as clone_request, responded as clone_responded, CloneOptions,
    CloneView, Request as CloneRequest, RequestView as CloneRequestView, State as CloneState,
};
use crate::err::Error;
use crate::json::{report_json, report_text, request_json, request_text};
use crate::log::name_view;
use crate::oid::{from_hex, Oid};
use crate::pack::object_in;
use crate::publish::{driver, push_start};
use crate::push::{
    request_of as push_request, responded as push_responded, sendable, Push, PushView,
    Request as PushRequest, RequestView as PushRequestView,
};

verus! {

// --- slots ---------------------------------------------------------------------------------------------------

/// Values under numbers. The number of a value that was closed is given out again.
pub struct Slots<T> {
    items: Vec<Option<T>>,
    /// What is said of a number without a value.
    invalid: &'static str,
}

/// The lowest number without a value, from `i` on.
pub open spec fn free_from<T>(items: Seq<Option<T>>, i: int) -> int
    decreases items.len() - i,
{
    if i >= items.len() || items[i] is None {
        i
    } else {
        free_from(items, i + 1)
    }
}

/// The value under a number.
pub open spec fn held<T>(items: Seq<Option<T>>, handle: int) -> Option<T> {
    if 0 <= handle < items.len() {
        items[handle]
    } else {
        None
    }
}

/// The values after one more was put in.
pub open spec fn inserted<T>(items: Seq<Option<T>>, item: T) -> Seq<Option<T>> {
    if free_from(items, 0) < items.len() {
        items.update(free_from(items, 0), Some(item))
    } else {
        items.push(Some(item))
    }
}

proof fn lemma_free_from<T>(items: Seq<Option<T>>, i: int)
    requires
        0 <= i <= items.len(),
    ensures
        i <= free_from(items, i) <= items.len(),
        free_from(items, i) < items.len() ==> items[free_from(items, i)] is None,
    decreases items.len() - i,
{
    if i < items.len() && items[i] is Some {
        lemma_free_from(items, i + 1);
    }
}

/// A number that is given out was free, leads to its value from then on, and changes nothing under
/// other numbers.
pub proof fn a_new_number_is_its_own<T>(items: Seq<Option<T>>, item: T, other: int)
    ensures
        held(items, free_from(items, 0)) is None,
        held(inserted(items, item), free_from(items, 0)) == Some(item),
        other != free_from(items, 0) ==> held(inserted(items, item), other) == held(items, other),
{
    lemma_free_from(items, 0);
}

impl<T> Slots<T> {
    pub closed spec fn view(&self) -> Seq<Option<T>> {
        self.items@
    }

    pub closed spec fn invalid(&self) -> Seq<char> {
        self.invalid@
    }

    /// No values yet.
    pub fn new(invalid: &'static str) -> (r: Self)
        ensures
            r@ == Seq::<Option<T>>::empty(),
            r.invalid() == invalid@,
    {
        Slots { items: Vec::new(), invalid }
    }

    /// Puts a value under the lowest free number.
    pub fn insert(&mut self, item: T) -> (r: usize)
        ensures
            r == free_from(old(self)@, 0),
            final(self).invalid() == old(self).invalid(),
            final(self)@ == inserted(old(self)@, item),
    {
        let mut i: usize = 0;
        while i < self.items.len()
            invariant
                i <= self.items@.len(),
                *self == *old(self),
                free_from(self.items@, 0) == free_from(self.items@, i as int),
            decreases self.items.len() - i,
        {
            if self.items[i].is_none() {
                self.items.set(i, Some(item));
                return i;
            }
            i += 1;
        }
        self.items.push(Some(item));
        i
    }

    /// The value under a number.
    pub fn get(&self, handle: i32) -> (r: core::result::Result<&T, String>)
        ensures
            match held(self@, handle as int) {
                Some(item) => r matches Ok(x) && *x == item,
                None => r matches Err(e) && e@ == self.invalid(),
            },
    {
        if handle >= 0 && (handle as usize) < self.items.len() {
            if let Some(item) = &self.items[handle as usize] {
                return Ok(item);
            }
        }
        Err(self.invalid.to_owned())
    }

    /// The value under a number, to be changed.
    pub fn get_mut(&mut self, handle: i32) -> (r: core::result::Result<&mut T, String>)
        ensures
            final(self).invalid() == old(self).invalid(),
            match r {
                Ok(item) => held(old(self)@, handle as int) == Some(*item) && final(self)@
                    == old(self)@.update(handle as int, Some(*final(item))),
                Err(e) => held(old(self)@, handle as int) is None && final(self)@ == old(self)@ && e@
                    == old(self).invalid(),
            },
    {
        if handle >= 0 && (handle as usize) < self.items.len() {
            if let Some(item) = &mut self.items[handle as usize] {
                return Ok(item);
            }
        }
        Err(self.invalid.to_owned())
    }

    /// Drops the value under a number.
    pub fn close(&mut self, handle: i32)
        ensures
            final(self).invalid() == old(self).invalid(),
            final(self)@ == if 0 <= handle < old(self)@.len() {
                old(self)@.update(handle as int, None)
            } else {
                old(self)@
            },
    {
        if handle >= 0 && (handle as usize) < self.items.len() {
            self.items.set(handle as usize, None);
        }
    }
}

// --- buffers -------------------------------------------------------------------------------------------------

/// A number in four bytes, the least significant first.
pub open spec fn le32(n: int) -> Seq<u8> {
    seq![
        (n % 256) as u8,
        (n / 256 % 256) as u8,
        (n / 65536 % 256) as u8,
        (n / 16777216 % 256) as u8,
    ]
}

/// Bytes behind their length, as they are handed out.
pub fn framed(payload: &[u8]) -> (r: Vec<u8>)
    ensures
        r@ == le32(payload@.len() as int) + payload@,
{
    let n: u64 = payload.len() as u64;
    let mut out: Vec<u8> = Vec::new();
    out.push((n % 256) as u8);
    out.push((n / 256 % 256) as u8);
    out.push((n / 65536 % 256) as u8);
    out.push((n / 16777216 % 256) as u8);
    assert(out@ =~= le32(n as int));
    out.extend_from_slice(payload);
    out
}

// --- objects -------------------------------------------------------------------------------------------------

/// The body of the object whose id is given in hexadecimal digits.
pub fn cat(bundle: &Bundle<'_>, hex: &[u8]) -> (r: core::result::Result<Vec<u8>, String>)
    ensures
        match from_hex(hex@) {
            Err(e) => r matches Err(f) && f@ == e.text(),
            Ok(oid) => match object_in(bundle.pack.data(), bundle.pack.index(), oid) {
                Err(e) => r matches Err(f) && f@ == e.text(),
                Ok(None) => r matches Err(f) && f@ == "object not found"@,
                Ok(Some((_, body))) => r matches Ok(b) && b@ == body,
            },
        },
{
    let oid = match Oid::from_hex(hex) {
        Ok(oid) => oid,
        Err(e) => {
            return Err(e.message());
        },
    };
    match bundle.pack.read_object(&oid) {
        Err(e) => Err(e.message()),
        Ok(Some((_, body))) => Ok(body),
        Ok(None) => Err("object not found".to_owned()),
    }
}

// --- clones --------------------------------------------------------------------------------------------------

/// A clone that is under way.
pub struct CloneSlot {
    driver: Option<crate::clone::Clone>,
    body: Vec<u8>,
}

pub struct CloneSlotView {
    /// `None` once the result was taken.
    pub driver: Option<CloneView>,
    /// The body of the last request.
    pub body: Seq<u8>,
}

impl View for CloneSlot {
    type V = CloneSlotView;

    closed spec fn view(&self) -> CloneSlotView {
        CloneSlotView {
            driver: match self.driver {
                Some(driver) => Some(driver@),
                None => None,
            },
            body: self.body@,
        }
    }
}

/// A request as it is shown, and its body.
pub open spec fn clone_next(driver: Option<CloneView>) -> (Seq<char>, Seq<u8>) {
    let next = match driver {
        Some(driver) => clone_request(driver),
        None => None,
    };
    match next {
        None => (request_text(None), Seq::empty()),
        Some(CloneRequestView::Get { path }) => (request_text(Some(("GET"@, path))), Seq::empty()),
        Some(CloneRequestView::Post { path, body }) => (request_text(Some(("POST"@, path))), body),
    }
}

impl CloneSlot {
    /// A clone of all refs, or of the one with the name. A depth of zero is the whole history.
    pub fn new(depth: u32, want_ref: &[u8]) -> (r: Self)
        ensures
            r@ == (CloneSlotView {
                driver: Some(
                    CloneView {
                        state: CloneState::InfoRefs,
                        depth: if depth == 0 {
                            None
                        } else {
                            Some(depth)
                        },
                        wanted: if want_ref@.len() == 0 {
                            None
                        } else {
                            Some(want_ref@)
                        },
                        refs: Seq::empty(),
                        shallow: Seq::empty(),
                        pack: Seq::empty(),
                    },
                ),
                body: Seq::empty(),
            }),
    {
        let opts = CloneOptions {
            depth: if depth == 0 {
                None
            } else {
                Some(depth)
            },
            want_ref: if want_ref.len() == 0 {
                None
            } else {
                Some(owned(want_ref))
            },
        };
        let r = CloneSlot { driver: Some(crate::clone::Clone::new(opts)), body: Vec::new() };
        assert(r@.body =~= Seq::<u8>::empty());
        r
    }

    /// The request to send next. Its body is put aside.
    pub fn next_json(&mut self) -> (r: String)
        ensures
            final(self)@ == (CloneSlotView { body: clone_next(old(self)@.driver).1, ..old(self)@ }),
            r@ == clone_next(old(self)@.driver).0,
    {
        let next: Option<(&str, &str, Vec<u8>)> = match &self.driver {
            None => None,
            Some(driver) => match driver.next_request() {
                None => None,
                Some(CloneRequest::Get { path }) => Some(("GET", path, Vec::new())),
                Some(CloneRequest::Post { path, body }) => Some(("POST", path, body)),
            },
        };
        request_json(&mut self.body, next)
    }

    /// The body of the last request.
    pub fn body(&self) -> (r: &[u8])
        ensures
            r@ == self@.body,
    {
        self.body.as_slice()
    }

    /// Takes the body of the response to the last request.
    pub fn response(&mut self, body: &[u8]) -> (r: core::result::Result<(), String>)
        ensures
            final(self)@.body == old(self)@.body,
            match old(self)@.driver {
                None => final(self)@ == old(self)@ && (r matches Err(e) && e@
                    == "clone already finished"@),
                Some(driver) => final(self)@.driver == Some(clone_responded(driver, body@).1) && match (
                    r,
                    clone_responded(driver, body@).0,
                ) {
                    (Ok(()), Ok(())) => true,
                    (Err(e), Err(f)) => e@ == f.text(),
                    _ => false,
                },
            },
    {
        match &mut self.driver {
            None => Err("clone already finished".to_owned()),
            Some(driver) => match driver.on_response(body) {
                Ok(()) => Ok(()),
                Err(e) => Err(e.message()),
            },
        }
    }

    /// The bundle that holds what was fetched. The clone is used up, whatever comes of it.
    pub fn finish_bundle(&mut self) -> (r: core::result::Result<Vec<u8>, String>)
        ensures
            final(self)@ == (CloneSlotView { driver: None, ..old(self)@ }),
            match old(self)@.driver {
                None => r matches Err(e) && e@ == "clone already finished"@,
                Some(driver) => if driver.state is Done {
                    match heads_for(
                        ref_pairs(matching(driver.refs, driver.wanted)),
                        driver.shallow,
                        driver.pack,
                    ) {
                        Err(e) => r matches Err(f) && f@ == e.text(),
                        Ok(heads) => r matches Ok(data) && data@ == bundle_bytes(heads, driver.pack),
                    }
                } else {
                    r matches Err(e) && e@ == Error::Corrupt("clone not finished").text()
                },
            },
    {
        let driver = match self.driver.take() {
            Some(driver) => driver,
            None => {
                return Err("clone already finished".to_owned());
            },
        };
        match driver.finish() {
            Err(e) => Err(e.message()),
            Ok(outcome) => match outcome.bundle() {
                Ok(data) => Ok(data),
                Err(e) => Err(e.message()),
            },
        }
    }
}

// --- pushes --------------------------------------------------------------------------------------------------

/// A push that is under way.
pub struct PushSlot {
    driver: Option<Push>,
    body: Vec<u8>,
}

pub struct PushSlotView {
    /// `None` once the result was taken.
    pub driver: Option<PushView>,
    /// The body of the last request.
    pub body: Seq<u8>,
}

impl View for PushSlot {
    type V = PushSlotView;

    closed spec fn view(&self) -> PushSlotView {
        PushSlotView {
            driver: match self.driver {
                Some(driver) => Some(driver@),
                None => None,
            },
            body: self.body@,
        }
    }
}

/// A request as it is shown, and its body.
pub open spec fn push_next(driver: Option<PushView>) -> (Seq<char>, Seq<u8>) {
    let next = match driver {
        Some(driver) => push_request(driver),
        None => None,
    };
    match next {
        None => (request_text(None), Seq::empty()),
        Some(PushRequestView::Get { path }) => (request_text(Some(("GET"@, path))), Seq::empty()),
        Some(PushRequestView::Post { path, body }) => (request_text(Some(("POST"@, path))), body),
    }
}

impl PushSlot {
    /// A push of refs of a bundle. All objects of the bundle go with it, those too that the other
    /// side has.
    pub fn new(bundle: &Bundle<'_>, from: Option<&[u8]>, to: Option<&[u8]>) -> (r:
        core::result::Result<Self, String>)
        ensures
            match (
                r,
                push_start(
                    ref_list(bundle.refs@),
                    bundle.pack.data(),
                    bundle.pack.index(),
                    name_view(from),
                    name_view(to),
                ),
            ) {
                (Ok(slot), Ok(driver)) => slot@ == (PushSlotView {
                    driver: Some(driver),
                    body: Seq::empty(),
                }),
                (Err(e), Err(f)) => e@ == f,
                _ => false,
            },
    {
        let driver = match driver(bundle, from, to) {
            Ok(driver) => driver,
            Err(e) => {
                return Err(e);
            },
        };
        let slot = PushSlot { driver: Some(driver), body: Vec::new() };
        assert(slot@.body =~= Seq::<u8>::empty());
        Ok(slot)
    }

    /// Whether the next request can be written down.
    pub fn is_sendable(&self) -> (r: bool)
        ensures
            r == (self@.driver matches Some(driver) ==> sendable(driver)),
    {
        match &self.driver {
            Some(driver) => driver.is_sendable(),
            None => true,
        }
    }

    /// The request to send next. Its body is put aside.
    pub fn next_json(&mut self) -> (r: String)
        requires
            old(self)@.driver matches Some(driver) ==> sendable(driver),
        ensures
            final(self)@ == (PushSlotView { body: push_next(old(self)@.driver).1, ..old(self)@ }),
            r@ == push_next(old(self)@.driver).0,
    {
        let next: Option<(&str, &str, Vec<u8>)> = match &self.driver {
            None => None,
            Some(driver) => match driver.next_request() {
                None => None,
                Some(PushRequest::Get { path }) => Some(("GET", path, Vec::new())),
                Some(PushRequest::Post { path, body }) => Some(("POST", path, body)),
            },
        };
        request_json(&mut self.body, next)
    }

    /// The body of the last request.
    pub fn body(&self) -> (r: &[u8])
        ensures
            r@ == self@.body,
    {
        self.body.as_slice()
    }

    /// Takes the body of the response to the last request.
    pub fn response(&mut self, body: &[u8]) -> (r: core::result::Result<(), String>)
        ensures
            final(self)@.body == old(self)@.body,
            match old(self)@.driver {
                None => final(self)@ == old(self)@ && (r matches Err(e) && e@
                    == "push already finished"@),
                Some(driver) => final(self)@.driver == Some(push_responded(driver, body@).1) && match (
                    r,
                    push_responded(driver, body@).0,
                ) {
                    (Ok(()), Ok(())) => true,
                    (Err(e), Err(f)) => e@ == f.text(),
                    _ => false,
                },
            },
    {
        match &mut self.driver {
            None => Err("push already finished".to_owned()),
            Some(driver) => match driver.on_response(body) {
                Ok(()) => Ok(()),
                Err(e) => Err(e.message()),
            },
        }
    }

    /// What became of the push. It is used up, whatever comes of it.
    pub fn finish_json(&mut self) -> (r: core::result::Result<String, String>)
        ensures
            final(self)@ == (PushSlotView { driver: None, ..old(self)@ }),
            match old(self)@.driver {
                None => r matches Err(e) && e@ == "push already finished"@,
                Some(driver) => if driver.state is Done {
                    r matches Ok(out) && out@ == report_text(driver.report)
                } else {
                    r matches Err(e) && e@ == Error::Corrupt("push not finished").text()
                },
            },
    {
        let driver = match self.driver.take() {
            Some(driver) => driver,
            None => {
                return Err("push already finished".to_owned());
            },
        };
        match driver.finish() {
            Err(e) => Err(e.message()),
            Ok(outcome) => match &outcome.report {
                Some(report) => Ok(report_json(Some(report))),
                None => Ok(report_json(None)),
            },
        }
    }
}

} // verus!
