//! Protocol version 2: the bodies of requests and responses for fetching.
//!
//! Nothing is sent from here. The bodies travel over smart HTTP:
//! - the capabilities come from `GET $URL/info/refs?service=git-upload-pack`,
//! - the commands go to `POST $URL/git-upload-pack`,
//!
//! both with the header `Git-Protocol: version=2`.

use vstd::prelude::*;

use crate::bytes::{
    after_prefix, cut, cut_at, decimal, fields, from_index, has_prefix, lemma_lit, lit, owned,
    push_decimal, same, split, starts_with, strip_prefix, text, views,
};
use crate::err::{agrees, Error, Result};
use crate::object::oid_views;
use crate::oid::{from_hex, push_hex, to_hex, Oid};
use crate::pkt::{
    first_pkt, lemma_first_pkt, pkt_line, trim_line, trimmed, write_delim, write_flush, write_line, Pkt,
    PktReader, PktView, MAX_DATA_LEN,
};

verus! {

// --- the service announcement ------------------------------------------------------------------------

/// The announcement of a service is over after the next flush.
pub open spec fn after_announcement(s: Seq<u8>) -> Result<Seq<u8>>
    decreases s.len(),
{
    proof {
        lemma_first_pkt(s);
    }
    match first_pkt(s) {
        Err(e) => Err(e),
        Ok((PktView::Flush, rest)) => Ok(rest),
        Ok((PktView::Data(_), rest)) => after_announcement(rest),
        Ok(_) => Err(Error::Corrupt("service announcement")),
    }
}

pub open spec fn announces_service(p: PktView) -> bool {
    p matches PktView::Data(data) && has_prefix(trimmed(data), lit("# service="))
}

/// The first frame that is not part of an announcement, and what follows it.
pub open spec fn first_announced(s: Seq<u8>) -> Result<(PktView, Seq<u8>)> {
    match first_pkt(s) {
        Err(e) => Err(e),
        Ok((p, rest)) => if announces_service(p) {
            match after_announcement(rest) {
                Err(e) => Err(e),
                Ok(after) => first_pkt(after),
            }
        } else {
            Ok((p, rest))
        },
    }
}

/// The first frame that is not part of an announcement.
pub(crate) fn skip_announcement<'a>(r: &mut PktReader<'a>) -> (p: Result<Pkt<'a>>)
    ensures
        match p {
            Ok(p) => first_announced(old(r)@) == Ok::<_, Error>((p@, final(r)@)),
            Err(e) => first_announced(old(r)@) == Err::<(PktView, Seq<u8>), _>(e),
        },
{
    let first = r.expect_next()?;
    let announced = match first {
        Pkt::Data(data) => starts_with(trim_line(data), text("# service=")),
        _ => false,
    };
    if !announced {
        return Ok(first);
    }
    let ghost after = r@;
    loop
        invariant_except_break
            after_announcement(after) == after_announcement(r@),
        invariant
            first_announced(old(r)@) == (match after_announcement(after) {
                Err(e) => Err(e),
                Ok(s) => first_pkt(s),
            }),
        ensures
            after_announcement(after) == Ok::<_, Error>(r@),
        decreases r@.len(),
    {
        proof {
            lemma_first_pkt(r@);
        }
        match r.expect_next()? {
            Pkt::Flush => {
                break;
            },
            Pkt::Data(_) => {},
            _ => {
                return Err(Error::Corrupt("service announcement"));
            },
        }
    }
    r.expect_next()
}

// --- capabilities ----------------------------------------------------------------------------------------

/// What a server can do, as far as it is used here.
#[derive(Debug, Clone, Copy, PartialEq, Eq, Structural)]
pub struct Advertisement {
    pub ls_refs: bool,
    pub fetch: bool,
    /// Whether fetching can be shallow.
    pub fetch_shallow: bool,
}

impl Default for Advertisement {
    fn default() -> (r: Self)
        ensures
            !r.ls_refs && !r.fetch && !r.fetch_shallow,
    {
        Advertisement { ls_refs: false, fetch: false, fetch_shallow: false }
    }
}

/// One more capability line.
pub open spec fn with_capability(adv: Advertisement, line: Seq<u8>) -> Advertisement {
    let (name, value) = match cut(line, 61) {
        Some(parts) => parts,
        None => (line, Seq::empty()),
    };
    if name == lit("ls-refs") {
        Advertisement { ls_refs: true, ..adv }
    } else if name == lit("fetch") {
        Advertisement {
            fetch: true,
            fetch_shallow: split(value, 32).contains(lit("shallow")),
            ..adv
        }
    } else {
        adv
    }
}

/// The capability lines up to a flush.
pub open spec fn capabilities(s: Seq<u8>, adv: Advertisement) -> Result<Advertisement>
    decreases s.len(),
{
    proof {
        lemma_first_pkt(s);
    }
    match first_pkt(s) {
        Err(e) => Err(e),
        Ok((PktView::Flush, _)) => Ok(adv),
        Ok((PktView::Data(data), rest)) => capabilities(rest, with_capability(adv, trimmed(data))),
        Ok(_) => Err(Error::Corrupt("capability advertisement")),
    }
}

/// What a capability advertisement says.
pub open spec fn advertisement(body: Seq<u8>) -> Result<Advertisement> {
    match first_announced(body) {
        Err(e) => Err(e),
        Ok((PktView::Data(data), rest)) => if trimmed(data) == lit("version 2") {
            capabilities(
                rest,
                Advertisement { ls_refs: false, fetch: false, fetch_shallow: false },
            )
        } else {
            Err(Error::Unsupported("protocol version (v2 required)"))
        },
        Ok(_) => Err(Error::Unsupported("protocol version (v2 required)")),
    }
}

/// Whether `word` is one of the fields of `s`.
pub(crate) fn has_field(s: &[u8], word: &'static str) -> (r: bool)
    ensures
        r == split(s@, 32).contains(lit(word)),
{
    let list = fields(s, 32);
    let ghost all = split(s@, 32);
    let mut i: usize = 0;
    while i < list.len()
        invariant
            i <= list@.len(),
            views(list@) == all,
            all == split(s@, 32),
            forall|k: int| 0 <= k < i ==> #[trigger] all[k] != lit(word),
        decreases list.len() - i,
    {
        assert(all[i as int] == list@[i as int]@);
        if same(list[i], text(word)) {
            return true;
        }
        i += 1;
    }
    false
}

/// Parses the response to `info/refs?service=git-upload-pack`.
pub fn parse_advertisement(body: &[u8]) -> (r: Result<Advertisement>)
    ensures
        r == advertisement(body@),
{
    let mut r = PktReader::new(body);
    let first = skip_announcement(&mut r)?;
    let version = match first {
        Pkt::Data(data) => same(trim_line(data), text("version 2")),
        _ => false,
    };
    if !version {
        return Err(Error::Unsupported("protocol version (v2 required)"));
    }
    let mut adv = Advertisement { ls_refs: false, fetch: false, fetch_shallow: false };
    loop
        invariant
            advertisement(body@) == capabilities(r@, adv),
        decreases r@.len(),
    {
        proof {
            lemma_first_pkt(r@);
        }
        match r.expect_next()? {
            Pkt::Flush => {
                return Ok(adv);
            },
            Pkt::Data(data) => {
                let line = trim_line(data);
                let (name, value) = match cut_at(line, 61) {
                    Some(parts) => parts,
                    None => {
                        let none = from_index(line, line.len());
                        assert(none@ =~= Seq::<u8>::empty());
                        (line, none)
                    },
                };
                if same(name, text("ls-refs")) {
                    adv.ls_refs = true;
                } else if same(name, text("fetch")) {
                    adv.fetch = true;
                    adv.fetch_shallow = has_field(value, "shallow");
                }
            },
            _ => {
                return Err(Error::Corrupt("capability advertisement"));
            },
        }
    }
}

// --- listing refs -------------------------------------------------------------------------------------------

/// The lines that ask for refs with one of the prefixes.
pub open spec fn prefix_lines(prefixes: Seq<Seq<u8>>) -> Seq<u8>
    decreases prefixes.len(),
{
    if prefixes.len() == 0 {
        Seq::empty()
    } else {
        pkt_line(lit("ref-prefix ") + prefixes[0]) + prefix_lines(prefixes.skip(1))
    }
}

/// A request for the refs with one of the prefixes; without a prefix for all refs.
pub open spec fn ls_refs_bytes(prefixes: Seq<Seq<u8>>) -> Seq<u8> {
    pkt_line(lit("command=ls-refs")) + lit("0001") + pkt_line(lit("peel")) + pkt_line(lit("symrefs"))
        + prefix_lines(prefixes) + lit("0000")
}

/// The words of the requests are short.
pub proof fn lemma_words()
    ensures
        lit("command=ls-refs").len() == 15,
        lit("peel").len() == 4,
        lit("symrefs").len() == 7,
        lit("ref-prefix ").len() == 11,
        lit("command=fetch").len() == 13,
        lit("no-progress").len() == 11,
        lit("ofs-delta").len() == 9,
        lit("deepen ").len() == 7,
        lit("want ").len() == 5,
        lit("done").len() == 4,
{
    reveal_strlit("command=ls-refs");
    reveal_strlit("peel");
    reveal_strlit("symrefs");
    reveal_strlit("ref-prefix ");
    reveal_strlit("command=fetch");
    reveal_strlit("no-progress");
    reveal_strlit("ofs-delta");
    reveal_strlit("deepen ");
    reveal_strlit("want ");
    reveal_strlit("done");
    lemma_lit("command=ls-refs");
    lemma_lit("peel");
    lemma_lit("symrefs");
    lemma_lit("ref-prefix ");
    lemma_lit("command=fetch");
    lemma_lit("no-progress");
    lemma_lit("ofs-delta");
    lemma_lit("deepen ");
    lemma_lit("want ");
    lemma_lit("done");
}

/// The body of the request for refs. Symbolic refs and the targets of tags are always asked for.
pub fn ls_refs_request(prefixes: &[&[u8]]) -> (r: Vec<u8>)
    requires
        forall|i: int| 0 <= i < prefixes@.len() ==> (#[trigger] prefixes@[i])@.len() + 11 < MAX_DATA_LEN,
    ensures
        r@ == ls_refs_bytes(views(prefixes@)),
{
    proof {
        lemma_words();
    }
    let ghost all = views(prefixes@);
    let mut out: Vec<u8> = Vec::new();
    write_line(&mut out, text("command=ls-refs"));
    write_delim(&mut out);
    write_line(&mut out, text("peel"));
    write_line(&mut out, text("symrefs"));
    let ghost head = out@;
    let mut i: usize = 0;
    assert(all.skip(0) =~= all);
    while i < prefixes.len()
        invariant
            i <= prefixes@.len(),
            all == views(prefixes@),
            lit("ref-prefix ").len() == 11,
            forall|i: int|
                0 <= i < prefixes@.len() ==> (#[trigger] prefixes@[i])@.len() + 11 < MAX_DATA_LEN,
            out@ + prefix_lines(all.skip(i as int)) == head + prefix_lines(all),
        decreases prefixes.len() - i,
    {
        let ghost before = out@;
        assert(all.skip(i as int)[0] == prefixes@[i as int]@);
        assert(all.skip(i as int).skip(1) =~= all.skip(i + 1));
        let mut line: Vec<u8> = Vec::new();
        line.extend_from_slice(text("ref-prefix "));
        line.extend_from_slice(prefixes[i]);
        assert(line@ =~= lit("ref-prefix ") + prefixes@[i as int]@);
        write_line(&mut out, line.as_slice());
        assert(out@ + prefix_lines(all.skip(i + 1)) =~= before + prefix_lines(all.skip(i as int)));
        i += 1;
    }
    write_flush(&mut out);
    assert(out@ =~= ls_refs_bytes(all));
    out
}

#[derive(Debug, Clone, PartialEq, Eq)]
pub struct RefEntry {
    pub name: Vec<u8>,
    pub oid: Oid,
    /// What an annotated tag leads to.
    pub peeled: Option<Oid>,
    /// The name of the ref that a symbolic ref stands for.
    pub symref_target: Option<Vec<u8>>,
}

/// A ref of a server.
pub struct RefView {
    pub name: Seq<u8>,
    pub oid: Seq<u8>,
    pub peeled: Option<Seq<u8>>,
    pub symref_target: Option<Seq<u8>>,
}

impl View for RefEntry {
    type V = RefView;

    open spec fn view(&self) -> RefView {
        RefView {
            name: self.name@,
            oid: self.oid@,
            peeled: match self.peeled {
                Some(oid) => Some(oid@),
                None => None,
            },
            symref_target: match self.symref_target {
                Some(name) => Some(name@),
                None => None,
            },
        }
    }
}

pub open spec fn ref_views(s: Seq<RefEntry>) -> Seq<RefView> {
    s.map_values(|e: RefEntry| e@)
}

/// One more attribute of a ref.
pub open spec fn with_attribute(e: RefView, attribute: Seq<u8>) -> Result<RefView> {
    if let Some(v) = after_prefix(attribute, lit("peeled:")) {
        match from_hex(v) {
            Ok(oid) => Ok(RefView { peeled: Some(oid), ..e }),
            Err(e) => Err(e),
        }
    } else if let Some(v) = after_prefix(attribute, lit("symref-target:")) {
        Ok(RefView { symref_target: Some(v), ..e })
    } else {
        Ok(e)
    }
}

/// All attributes from the `i`-th field on.
pub open spec fn with_attributes(e: RefView, list: Seq<Seq<u8>>, i: int) -> Result<RefView>
    decreases list.len() - i,
{
    if i >= list.len() {
        Ok(e)
    } else {
        match with_attribute(e, list[i]) {
            Ok(f) => with_attributes(f, list, i + 1),
            Err(e) => Err(e),
        }
    }
}

/// The ref in a line: the id, the name and attributes, with spaces between them.
pub open spec fn ref_in(line: Seq<u8>) -> Result<RefView> {
    let list = split(line, 32);
    if list.len() < 2 {
        Err(Error::Corrupt("ls-refs line"))
    } else {
        match from_hex(list[0]) {
            Err(e) => Err(e),
            Ok(oid) => with_attributes(
                RefView { name: list[1], oid, peeled: None, symref_target: None },
                list,
                2,
            ),
        }
    }
}

/// The refs in the lines up to a flush.
pub open spec fn refs_from(s: Seq<u8>, refs: Seq<RefView>) -> Result<Seq<RefView>>
    decreases s.len(),
{
    proof {
        lemma_first_pkt(s);
    }
    match first_pkt(s) {
        Err(e) => Err(e),
        Ok((PktView::Flush, _)) => Ok(refs),
        Ok((PktView::ResponseEnd, _)) => Ok(refs),
        Ok((PktView::Data(data), rest)) => match ref_in(trimmed(data)) {
            Ok(e) => refs_from(rest, refs.push(e)),
            Err(e) => Err(e),
        },
        Ok(_) => Err(Error::Corrupt("ls-refs response")),
    }
}

fn parse_ref(line: &[u8]) -> (r: Result<RefEntry>)
    ensures
        agrees(r, ref_in(line@)),
{
    let list = fields(line, 32);
    let ghost all = split(line@, 32);
    if list.len() < 2 {
        return Err(Error::Corrupt("ls-refs line"));
    }
    assert(all[0] == list@[0]@ && all[1] == list@[1]@);
    let mut entry = RefEntry {
        name: owned(list[1]),
        oid: Oid::from_hex(list[0])?,
        peeled: None,
        symref_target: None,
    };
    let mut i: usize = 2;
    while i < list.len()
        invariant
            2 <= i <= list@.len(),
            views(list@) == all,
            all == split(line@, 32),
            ref_in(line@) == with_attributes(entry@, all, i as int),
        decreases list.len() - i,
    {
        let attribute = list[i];
        assert(all[i as int] == attribute@);
        if let Some(v) = strip_prefix(attribute, text("peeled:")) {
            entry.peeled = Some(Oid::from_hex(v)?);
        } else if let Some(v) = strip_prefix(attribute, text("symref-target:")) {
            entry.symref_target = Some(owned(v));
        }
        i += 1;
    }
    Ok(entry)
}

/// Parses the response to the request for refs.
pub fn parse_ls_refs(body: &[u8]) -> (r: Result<Vec<RefEntry>>)
    ensures
        match r {
            Ok(refs) => refs_from(body@, Seq::empty()) == Ok::<_, Error>(ref_views(refs@)),
            Err(e) => refs_from(body@, Seq::empty()) == Err::<Seq<RefView>, _>(e),
        },
{
    let mut r = PktReader::new(body);
    let mut refs: Vec<RefEntry> = Vec::new();
    assert(ref_views(refs@) =~= Seq::<RefView>::empty());
    loop
        invariant
            refs_from(body@, Seq::empty()) == refs_from(r@, ref_views(refs@)),
        decreases r@.len(),
    {
        proof {
            lemma_first_pkt(r@);
        }
        match r.expect_next()? {
            Pkt::Flush => {
                return Ok(refs);
            },
            Pkt::ResponseEnd => {
                return Ok(refs);
            },
            Pkt::Data(data) => {
                let entry = parse_ref(trim_line(data))?;
                let ghost before = refs@;
                refs.push(entry);
                assert(ref_views(refs@) =~= ref_views(before).push(entry@));
            },
            _ => {
                return Err(Error::Corrupt("ls-refs response"));
            },
        }
    }
}

// --- fetching ---------------------------------------------------------------------------------------------

pub open spec fn want_lines(wants: Seq<Seq<u8>>) -> Seq<u8>
    decreases wants.len(),
{
    if wants.len() == 0 {
        Seq::empty()
    } else {
        pkt_line(lit("want ") + to_hex(wants[0])) + want_lines(wants.skip(1))
    }
}

/// A request for the history of the wanted objects, down to a depth if one is given.
pub open spec fn fetch_bytes(wants: Seq<Seq<u8>>, depth: Option<u32>) -> Seq<u8> {
    pkt_line(lit("command=fetch")) + lit("0001") + pkt_line(lit("no-progress")) + pkt_line(
        lit("ofs-delta"),
    ) + (match depth {
        Some(n) => pkt_line(lit("deepen ") + decimal(n as nat)),
        None => Seq::empty(),
    }) + want_lines(wants) + pkt_line(lit("done")) + lit("0000")
}

/// The number of digits of a number below two to the 32.
pub proof fn lemma_decimal_len(n: nat, k: nat)
    requires
        n < vstd::arithmetic::power::pow(10, k),
        k > 0,
    ensures
        decimal(n).len() <= k,
    decreases k,
{
    vstd::arithmetic::power::lemma_pow1(10);
    if n >= 10 {
        assert(k > 1) by {
            if k == 1 {
            }
        }
        vstd::arithmetic::power::lemma_pow_adds(10, 1, (k - 1) as nat);
        lemma_decimal_len(n / 10, (k - 1) as nat);
    }
}

/// The body of the request for a pack. There is no negotiation: the request is complete as it is.
pub fn fetch_request(wants: &[Oid], depth: Option<u32>) -> (r: Vec<u8>)
    ensures
        r@ == fetch_bytes(oid_views(wants@), depth),
{
    proof {
        lemma_words();
    }
    let ghost all = oid_views(wants@);
    let mut out: Vec<u8> = Vec::new();
    write_line(&mut out, text("command=fetch"));
    write_delim(&mut out);
    write_line(&mut out, text("no-progress"));
    write_line(&mut out, text("ofs-delta"));
    if let Some(n) = depth {
        let mut line: Vec<u8> = Vec::new();
        line.extend_from_slice(text("deepen "));
        push_decimal(&mut line, n as u64);
        proof {
            assert(10000000000int == vstd::arithmetic::power::pow(10, 10)) by {
                reveal_with_fuel(vstd::arithmetic::power::pow, 11);
            }
            lemma_decimal_len(n as nat, 10);
        }
        write_line(&mut out, line.as_slice());
    }
    let ghost head = out@;
    assert(head =~= pkt_line(lit("command=fetch")) + lit("0001") + pkt_line(lit("no-progress")) + pkt_line(
        lit("ofs-delta"),
    ) + (match depth {
        Some(n) => pkt_line(lit("deepen ") + decimal(n as nat)),
        None => Seq::empty(),
    }));
    let mut i: usize = 0;
    assert(all.skip(0) =~= all);
    while i < wants.len()
        invariant
            i <= wants@.len(),
            all == oid_views(wants@),
            lit("want ").len() == 5,
            out@ + want_lines(all.skip(i as int)) == head + want_lines(all),
        decreases wants.len() - i,
    {
        let ghost before = out@;
        assert(all.skip(i as int)[0] == wants@[i as int]@);
        assert(all.skip(i as int).skip(1) =~= all.skip(i + 1));
        let mut line: Vec<u8> = Vec::new();
        line.extend_from_slice(text("want "));
        push_hex(&mut line, &wants[i]);
        proof {
            wants@[i as int].lemma_len();
            assert(line@ =~= lit("want ") + to_hex(wants@[i as int]@));
        }
        write_line(&mut out, line.as_slice());
        assert(out@ + want_lines(all.skip(i + 1)) =~= before + want_lines(all.skip(i as int)));
        i += 1;
    }
    write_line(&mut out, text("done"));
    write_flush(&mut out);
    assert(out@ =~= fetch_bytes(all, depth));
    out
}

#[derive(Debug, PartialEq, Eq)]
pub struct FetchResponse {
    /// The commits where the history was cut off.
    pub shallow: Vec<Oid>,
    pub pack: Vec<u8>,
}

impl Default for FetchResponse {
    fn default() -> (r: Self)
        ensures
            r.shallow@.len() == 0 && r.pack@.len() == 0,
    {
        FetchResponse { shallow: Vec::new(), pack: Vec::new() }
    }
}

/// What a server sent for a fetch.
pub struct FetchView {
    pub shallow: Seq<Seq<u8>>,
    pub pack: Seq<u8>,
}

impl View for FetchResponse {
    type V = FetchView;

    open spec fn view(&self) -> FetchView {
        FetchView { shallow: oid_views(self.shallow@), pack: self.pack@ }
    }
}

/// The data of the first channel with one more frame of any channel.
pub open spec fn with_band(all: Seq<u8>, data: Seq<u8>) -> Result<Seq<u8>> {
    if data.len() == 0 {
        Err(Error::Corrupt("sideband pkt"))
    } else if data[0] == 1 {
        Ok(all + data.skip(1))
    } else if data[0] == 2 {
        Ok(all)
    } else if data[0] == 3 {
        Err(Error::Corrupt("remote error (sideband 3)"))
    } else {
        Err(Error::Corrupt("sideband channel"))
    }
}

/// Adds the data of the first channel.
pub(crate) fn take_band(all: &mut Vec<u8>, data: &[u8]) -> (r: Result<()>)
    ensures
        match r {
            Ok(()) => with_band(old(all)@, data@) == Ok::<_, Error>(final(all)@),
            Err(e) => with_band(old(all)@, data@) == Err::<Seq<u8>, _>(e),
        },
{
    if data.len() == 0 {
        return Err(Error::Corrupt("sideband pkt"));
    }
    let band = data[0];
    if band == 1 {
        all.extend_from_slice(from_index(data, 1));
        assert(all@ =~= old(all)@ + data@.skip(1));
        Ok(())
    } else if band == 2 {
        Ok(())
    } else if band == 3 {
        Err(Error::Corrupt("remote error (sideband 3)"))
    } else {
        Err(Error::Corrupt("sideband channel"))
    }
}

/// The section on shallow commits: they, and what follows the section.
pub open spec fn shallow_section(s: Seq<u8>, shallow: Seq<Seq<u8>>) -> Result<(Seq<Seq<u8>>, Seq<u8>)>
    decreases s.len(),
{
    proof {
        lemma_first_pkt(s);
    }
    match first_pkt(s) {
        Err(e) => Err(e),
        Ok((PktView::Delim, rest)) => Ok((shallow, rest)),
        Ok((PktView::Data(data), rest)) => match after_prefix(trimmed(data), lit("shallow ")) {
            Some(v) => match from_hex(v) {
                Ok(oid) => shallow_section(rest, shallow.push(oid)),
                Err(e) => Err(e),
            },
            None => shallow_section(rest, shallow),
        },
        Ok(_) => Err(Error::Corrupt("shallow-info section")),
    }
}

/// What follows a section that is not used.
pub open spec fn after_section(s: Seq<u8>) -> Result<Seq<u8>>
    decreases s.len(),
{
    proof {
        lemma_first_pkt(s);
    }
    match first_pkt(s) {
        Err(e) => Err(e),
        Ok((PktView::Delim, rest)) => Ok(rest),
        Ok((PktView::Data(_), rest)) => after_section(rest),
        Ok(_) => Err(Error::Corrupt("truncated section")),
    }
}

/// The section with the pack.
pub open spec fn pack_section(s: Seq<u8>, pack: Seq<u8>) -> Result<Seq<u8>>
    decreases s.len(),
{
    proof {
        lemma_first_pkt(s);
    }
    match first_pkt(s) {
        Err(e) => Err(e),
        Ok((PktView::Data(data), rest)) => match with_band(pack, data) {
            Ok(more) => pack_section(rest, more),
            Err(e) => Err(e),
        },
        Ok((PktView::Delim, _)) => Err(Error::Corrupt("packfile section")),
        Ok(_) => if pack.len() == 0 {
            Err(Error::Corrupt("empty packfile section"))
        } else {
            Ok(pack)
        },
    }
}

pub proof fn lemma_shallow_section(s: Seq<u8>, shallow: Seq<Seq<u8>>)
    ensures
        shallow_section(s, shallow) matches Ok((all, rest)) ==> rest.len() < s.len(),
    decreases s.len(),
{
    lemma_first_pkt(s);
    if let Ok((PktView::Data(data), rest)) = first_pkt(s) {
        lemma_shallow_section(rest, shallow);
        if let Some(v) = after_prefix(trimmed(data), lit("shallow ")) {
            if let Ok(oid) = from_hex(v) {
                lemma_shallow_section(rest, shallow.push(oid));
            }
        }
    }
}

pub proof fn lemma_after_section(s: Seq<u8>)
    ensures
        after_section(s) matches Ok(rest) ==> rest.len() < s.len(),
    decreases s.len(),
{
    lemma_first_pkt(s);
    if let Ok((PktView::Data(_), rest)) = first_pkt(s) {
        lemma_after_section(rest);
    }
}

/// The sections of a response, up to the pack.
pub open spec fn sections(s: Seq<u8>, shallow: Seq<Seq<u8>>) -> Result<FetchView>
    decreases s.len(),
{
    match first_pkt(s) {
        Err(e) => Err(e),
        Ok((PktView::Data(data), rest)) => {
            let title = trimmed(data);
            proof {
                lemma_first_pkt(s);
                lemma_shallow_section(rest, shallow);
                lemma_after_section(rest);
            }
            if title == lit("shallow-info") {
                match shallow_section(rest, shallow) {
                    Err(e) => Err(e),
                    Ok((all, after)) => sections(after, all),
                }
            } else if title == lit("acknowledgments") {
                match after_section(rest) {
                    Err(e) => Err(e),
                    Ok(after) => sections(after, shallow),
                }
            } else if title == lit("packfile") {
                match pack_section(rest, Seq::empty()) {
                    Err(e) => Err(e),
                    Ok(pack) => Ok(FetchView { shallow, pack }),
                }
            } else {
                Err(Error::Unsupported("fetch response section"))
            }
        },
        Ok((PktView::Delim, _)) => Err(Error::Corrupt("fetch response")),
        Ok(_) => Err(Error::Corrupt("fetch response without packfile")),
    }
}

fn parse_shallow_info(r: &mut PktReader<'_>, shallow: &mut Vec<Oid>) -> (x: Result<()>)
    ensures
        match x {
            Ok(()) => shallow_section(old(r)@, oid_views(old(shallow)@)) == Ok::<_, Error>(
                (oid_views(final(shallow)@), final(r)@),
            ),
            Err(e) => shallow_section(old(r)@, oid_views(old(shallow)@)) == Err::<
                (Seq<Seq<u8>>, Seq<u8>),
                _,
            >(e),
        },
{
    loop
        invariant
            shallow_section(old(r)@, oid_views(old(shallow)@)) == shallow_section(
                r@,
                oid_views(shallow@),
            ),
        decreases r@.len(),
    {
        proof {
            lemma_first_pkt(r@);
        }
        match r.expect_next()? {
            Pkt::Delim => {
                return Ok(());
            },
            Pkt::Data(data) => {
                if let Some(v) = strip_prefix(trim_line(data), text("shallow ")) {
                    let oid = Oid::from_hex(v)?;
                    let ghost before = shallow@;
                    shallow.push(oid);
                    assert(oid_views(shallow@) =~= oid_views(before).push(oid@));
                }
            },
            _ => {
                return Err(Error::Corrupt("shallow-info section"));
            },
        }
    }
}

fn skip_section(r: &mut PktReader<'_>) -> (x: Result<()>)
    ensures
        match x {
            Ok(()) => after_section(old(r)@) == Ok::<_, Error>(final(r)@),
            Err(e) => after_section(old(r)@) == Err::<Seq<u8>, _>(e),
        },
{
    loop
        invariant
            after_section(old(r)@) == after_section(r@),
        decreases r@.len(),
    {
        proof {
            lemma_first_pkt(r@);
        }
        match r.expect_next()? {
            Pkt::Delim => {
                return Ok(());
            },
            Pkt::Data(_) => {},
            _ => {
                return Err(Error::Corrupt("truncated section"));
            },
        }
    }
}

fn parse_packfile_section(r: &mut PktReader<'_>) -> (x: Result<Vec<u8>>)
    ensures
        agrees(x, pack_section(old(r)@, Seq::empty())),
{
    let mut pack: Vec<u8> = Vec::new();
    loop
        invariant
            pack_section(old(r)@, Seq::empty()) == pack_section(r@, pack@),
        decreases r@.len(),
    {
        proof {
            lemma_first_pkt(r@);
        }
        match r.expect_next()? {
            Pkt::Data(data) => {
                take_band(&mut pack, data)?;
            },
            Pkt::Delim => {
                return Err(Error::Corrupt("packfile section"));
            },
            _ => {
                if pack.len() == 0 {
                    return Err(Error::Corrupt("empty packfile section"));
                }
                return Ok(pack);
            },
        }
    }
}

/// Parses the response to the request for a pack; the channels are taken apart.
pub fn parse_fetch_response(body: &[u8]) -> (x: Result<FetchResponse>)
    ensures
        agrees(x, sections(body@, Seq::empty())),
{
    let mut r = PktReader::new(body);
    let mut shallow: Vec<Oid> = Vec::new();
    assert(oid_views(shallow@) =~= Seq::<Seq<u8>>::empty());
    loop
        invariant
            sections(body@, Seq::empty()) == sections(r@, oid_views(shallow@)),
        decreases r@.len(),
    {
        proof {
            lemma_first_pkt(r@);
        }
        match r.expect_next()? {
            Pkt::Data(data) => {
                let title = trim_line(data);
                proof {
                    lemma_shallow_section(r@, oid_views(shallow@));
                    lemma_after_section(r@);
                }
                if same(title, text("shallow-info")) {
                    parse_shallow_info(&mut r, &mut shallow)?;
                } else if same(title, text("acknowledgments")) {
                    skip_section(&mut r)?;
                } else if same(title, text("packfile")) {
                    let pack = parse_packfile_section(&mut r)?;
                    return Ok(FetchResponse { shallow, pack });
                } else {
                    return Err(Error::Unsupported("fetch response section"));
                }
            },
            Pkt::Delim => {
                return Err(Error::Corrupt("fetch response"));
            },
            _ => {
                return Err(Error::Corrupt("fetch response without packfile"));
            },
        }
    }
}

} // verus!
