//! Bundles (version 2 and 3): a repository in one file.
//!
//! A bundle is a signature line, in version 3 lines with capabilities, lines with prerequisites and
//! refs, an empty line and a pack.

use vstd::prelude::*;

use crate::bytes::{
    cut, cut_at, from_index, has_byte, lemma_cut, lemma_cut_len, lemma_lit, lit, same, text, up_to,
};
use crate::err::{Error, Result};
use crate::history::holds;
use crate::object::{commit_view, lemma_commit_ids, oid_views, parse_commit, Kind};
use crate::oid::{from_hex, hex_round_trip, push_hex, to_hex, Oid};
use crate::pack::index::{has_id, PlaceView};
use crate::pack::{object_in, parsed, Pack, DEFAULT_BASE_CACHE_BYTES};

verus! {

pub struct Bundle<'a> {
    /// The names of refs (such as `refs/heads/main`) and what they point to, in the order of the
    /// file.
    pub refs: Vec<(&'a [u8], Oid)>,
    /// Commits that are not in the bundle; the history ends before them.
    pub prerequisites: Vec<Oid>,
    pub pack: Pack<'a>,
}

/// What stands before the pack.
pub struct Heads {
    pub refs: Seq<(Seq<u8>, Seq<u8>)>,
    pub prerequisites: Seq<Seq<u8>>,
}

pub open spec fn ref_list(s: Seq<(&[u8], Oid)>) -> Seq<(Seq<u8>, Seq<u8>)> {
    s.map_values(|e: (&[u8], Oid)| (e.0@, e.1@))
}

// --- what a bundle says --------------------------------------------------------------------------------

/// What follows the capabilities. Only the one for SHA-1 ids is known.
pub open spec fn after_capabilities(s: Seq<u8>) -> Result<Seq<u8>>
    decreases s.len(),
{
    proof {
        lemma_cut_len(s, 10);
    }
    if s.len() == 0 || s[0] != 64 {
        Ok(s)
    } else {
        match cut(s, 10) {
            None => Err(Error::Corrupt("bundle header line")),
            Some((line, rest)) => if line.skip(1) == lit("object-format=sha1") {
                after_capabilities(rest)
            } else {
                Err(Error::Unsupported("bundle capability"))
            },
        }
    }
}

/// One more line: a prerequisite after a minus sign, or a ref.
pub open spec fn with_line(h: Heads, line: Seq<u8>) -> Result<Heads> {
    if line.len() > 0 && line[0] == 45 {
        if line.len() < 41 {
            Err(Error::Corrupt("bundle prerequisite"))
        } else {
            match from_hex(line.subrange(1, 41)) {
                Ok(oid) => Ok(Heads { prerequisites: h.prerequisites.push(oid), ..h }),
                Err(e) => Err(e),
            }
        }
    } else if line.len() < 40 {
        Err(Error::Corrupt("bundle ref"))
    } else if line.len() < 42 || line[40] != 32 {
        Err(Error::Corrupt("bundle ref name"))
    } else {
        match from_hex(line.take(40)) {
            Ok(oid) => Ok(Heads { refs: h.refs.push((line.skip(41), oid)), ..h }),
            Err(e) => Err(e),
        }
    }
}

/// The lines up to the empty one, and what follows that.
pub open spec fn lines_from(s: Seq<u8>, h: Heads) -> Result<(Heads, Seq<u8>)>
    decreases s.len(),
{
    proof {
        lemma_cut_len(s, 10);
    }
    match cut(s, 10) {
        None => Err(Error::Corrupt("bundle header line")),
        Some((line, rest)) => if line.len() == 0 {
            Ok((h, rest))
        } else {
            match with_line(h, line) {
                Ok(g) => lines_from(rest, g),
                Err(e) => Err(e),
            }
        },
    }
}

pub open spec fn no_heads() -> Heads {
    Heads { refs: Seq::empty(), prerequisites: Seq::empty() }
}

/// What stands before the pack, and the pack.
pub open spec fn heads_of(data: Seq<u8>) -> Result<(Heads, Seq<u8>)> {
    match cut(data, 10) {
        None => Err(Error::Corrupt("bundle header line")),
        Some((signature, rest)) => if signature == lit("# v2 git bundle") {
            lines_from(rest, no_heads())
        } else if signature == lit("# v3 git bundle") {
            match after_capabilities(rest) {
                Ok(after) => lines_from(after, no_heads()),
                Err(e) => Err(e),
            }
        } else {
            Err(Error::Unsupported("bundle signature"))
        },
    }
}

/// What the first ref with the name points to.
pub open spec fn ref_named(refs: Seq<(Seq<u8>, Seq<u8>)>, name: Seq<u8>) -> Option<Seq<u8>>
    decreases refs.len(),
{
    if refs.len() == 0 {
        None
    } else if refs[0].0 == name {
        Some(refs[0].1)
    } else {
        ref_named(refs.skip(1), name)
    }
}

// --- reading ---------------------------------------------------------------------------------------------

fn split_line(data: &[u8]) -> (r: Result<(&[u8], &[u8])>)
    ensures
        match r {
            Ok((line, rest)) => cut(data@, 10) == Some((line@, rest@)) && rest@.len() < data@.len(),
            Err(e) => cut(data@, 10) is None && e == Error::Corrupt("bundle header line"),
        },
{
    match cut_at(data, 10) {
        Some(parts) => Ok(parts),
        None => Err(Error::Corrupt("bundle header line")),
    }
}

fn skip_capabilities(data: &[u8]) -> (r: Result<&[u8]>)
    ensures
        match r {
            Ok(rest) => after_capabilities(data@) == Ok::<_, Error>(rest@),
            Err(e) => after_capabilities(data@) == Err::<Seq<u8>, _>(e),
        },
{
    let mut rest = data;
    while rest.len() > 0 && rest[0] == 64
        invariant
            after_capabilities(data@) == after_capabilities(rest@),
        decreases rest@.len(),
    {
        let (line, next) = split_line(rest)?;
        proof {
            lemma_cut_len(rest@, 10);
            assert(line@.len() > 0) by {
                if line@.len() == 0 {
                    assert((line@.push(10) + next@)[0] == 10);
                }
            }
        }
        if !same(from_index(line, 1), text("object-format=sha1")) {
            return Err(Error::Unsupported("bundle capability"));
        }
        rest = next;
    }
    Ok(rest)
}

impl<'a> Bundle<'a> {
    pub fn parse(data: &'a [u8]) -> (r: Result<Self>)
        ensures
            match heads_of(data@) {
                Err(e) => r matches Err(f) && f == e,
                Ok((heads, pack)) => match parsed(pack, DEFAULT_BASE_CACHE_BYTES as nat) {
                    Err(e) => r matches Err(f) && f == e,
                    Ok(index) => r matches Ok(bundle) && ref_list(bundle.refs@) == heads.refs && oid_views(
                        bundle.prerequisites@,
                    ) == heads.prerequisites && bundle.pack.data() == pack && bundle.pack.index()
                        == index,
                },
            },
    {
        let (signature, after) = split_line(data)?;
        let mut rest: &'a [u8] = after;
        if same(signature, text("# v2 git bundle")) {
        } else if same(signature, text("# v3 git bundle")) {
            rest = skip_capabilities(after)?;
        } else {
            return Err(Error::Unsupported("bundle signature"));
        }
        let mut refs: Vec<(&'a [u8], Oid)> = Vec::new();
        let mut prerequisites: Vec<Oid> = Vec::new();
        let ghost mut h = no_heads();
        assert(ref_list(refs@) =~= Seq::<(Seq<u8>, Seq<u8>)>::empty());
        assert(oid_views(prerequisites@) =~= Seq::<Seq<u8>>::empty());
        loop
            invariant_except_break
                heads_of(data@) == lines_from(rest@, h),
            invariant
                h == (Heads { refs: ref_list(refs@), prerequisites: oid_views(prerequisites@) }),
            ensures
                heads_of(data@) == Ok::<_, Error>((h, rest@)),
            decreases rest@.len(),
        {
            let (line, next) = split_line(rest)?;
            rest = next;
            if line.len() == 0 {
                break;
            }
            if line[0] == 45 {
                if line.len() < 41 {
                    return Err(Error::Corrupt("bundle prerequisite"));
                }
                let oid = Oid::from_hex(&line[1..41])?;
                let ghost before = prerequisites@;
                prerequisites.push(oid);
                assert(oid_views(prerequisites@) =~= oid_views(before).push(oid@));
            } else {
                if line.len() < 40 {
                    return Err(Error::Corrupt("bundle ref"));
                }
                if line.len() < 42 || line[40] != 32 {
                    return Err(Error::Corrupt("bundle ref name"));
                }
                let oid = Oid::from_hex(up_to(line, 40))?;
                let name = from_index(line, 41);
                let ghost before = refs@;
                refs.push((name, oid));
                assert(ref_list(refs@) =~= ref_list(before).push((name@, oid@)));
            }
            proof {
                h = with_line(h, line@)->Ok_0;
            }
        }
        let pack = Pack::parse(rest)?;
        Ok(Bundle { refs, prerequisites, pack })
    }

    /// What the ref with the name points to.
    pub fn find_ref(&self, name: &[u8]) -> (r: Option<Oid>)
        ensures
            match r {
                Some(oid) => ref_named(ref_list(self.refs@), name@) == Some(oid@),
                None => ref_named(ref_list(self.refs@), name@) is None,
            },
    {
        let ghost all = ref_list(self.refs@);
        let mut i: usize = 0;
        assert(all.skip(0) =~= all);
        while i < self.refs.len()
            invariant
                i <= self.refs@.len(),
                all == ref_list(self.refs@),
                ref_named(all, name@) == ref_named(all.skip(i as int), name@),
            decreases self.refs.len() - i,
        {
            assert(all.skip(i as int)[0] == (self.refs@[i as int].0@, self.refs@[i as int].1@));
            assert(all.skip(i as int).skip(1) =~= all.skip(i + 1));
            if same(self.refs[i].0, name) {
                return Some(self.refs[i].1);
            }
            i += 1;
        }
        None
    }
}

// --- writing ---------------------------------------------------------------------------------------------

/// A name that a line of a bundle can hold.
pub open spec fn valid_ref_name(name: Seq<u8>) -> bool {
    name.len() > 0 && !name.contains(10)
}

pub open spec fn valid_refs(refs: Seq<(Seq<u8>, Seq<u8>)>) -> bool {
    forall|i: int| 0 <= i < refs.len() ==> valid_ref_name((#[trigger] refs[i]).0)
}

pub open spec fn prerequisite_lines(s: Seq<Seq<u8>>) -> Seq<u8>
    decreases s.len(),
{
    if s.len() == 0 {
        Seq::empty()
    } else {
        (seq![45u8] + to_hex(s[0])).push(10) + prerequisite_lines(s.skip(1))
    }
}

pub open spec fn ref_lines(refs: Seq<(Seq<u8>, Seq<u8>)>) -> Seq<u8>
    decreases refs.len(),
{
    if refs.len() == 0 {
        Seq::empty()
    } else {
        (to_hex(refs[0].1).push(32) + refs[0].0).push(10) + ref_lines(refs.skip(1))
    }
}

/// A bundle of version 2.
pub open spec fn bundle_bytes(h: Heads, pack: Seq<u8>) -> Seq<u8> {
    lit("# v2 git bundle").push(10) + (prerequisite_lines(h.prerequisites) + (ref_lines(h.refs) + (
    seq![10u8] + pack)))
}

/// The parents that are not in the pack, added to `known` where they are not in it.
pub open spec fn with_absent(
    index: Seq<PlaceView>,
    parents: Seq<Seq<u8>>,
    known: Seq<Seq<u8>>,
) -> Seq<Seq<u8>>
    decreases parents.len(),
{
    if parents.len() == 0 {
        known
    } else {
        let before = with_absent(index, parents.drop_last(), known);
        let parent = parents.last();
        if has_id(index, parent) || before.contains(parent) {
            before
        } else {
            before.push(parent)
        }
    }
}

/// The prerequisites of a bundle whose history is cut off at the first `n` commits of `shallow`:
/// their parents that are not in the pack.
pub open spec fn prerequisites_of(
    data: Seq<u8>,
    index: Seq<PlaceView>,
    shallow: Seq<Seq<u8>>,
    n: nat,
) -> Result<Seq<Seq<u8>>>
    decreases n,
{
    if n == 0 {
        Ok(Seq::empty())
    } else {
        match prerequisites_of(data, index, shallow, (n - 1) as nat) {
            Err(e) => Err(e),
            Ok(known) => match object_in(data, index, shallow[n - 1]) {
                Err(e) => Err(e),
                Ok(Some((Kind::Commit, body))) => match commit_view(body) {
                    Err(e) => Err(e),
                    Ok(c) => Ok(with_absent(index, c.parents, known)),
                },
                Ok(Some(_)) => Err(Error::Corrupt("shallow object is not a commit")),
                Ok(None) => Err(Error::MissingBase),
            },
        }
    }
}

/// What stands before the pack in a bundle of the given refs.
pub open spec fn heads_for(
    refs: Seq<(Seq<u8>, Seq<u8>)>,
    shallow: Seq<Seq<u8>>,
    pack: Seq<u8>,
) -> Result<Heads> {
    if !valid_refs(refs) {
        Err(Error::Corrupt("bundle ref name"))
    } else if shallow.len() == 0 {
        Ok(Heads { refs, prerequisites: Seq::empty() })
    } else {
        match parsed(pack, DEFAULT_BASE_CACHE_BYTES as nat) {
            Err(e) => Err(e),
            Ok(index) => match prerequisites_of(pack, index, shallow, shallow.len()) {
                Err(e) => Err(e),
                Ok(prerequisites) => Ok(Heads { refs, prerequisites }),
            },
        }
    }
}

fn add_absent(pack: &Pack<'_>, parents: &[Oid], known: &mut Vec<Oid>)
    ensures
        oid_views(final(known)@) == with_absent(
            pack.index(),
            oid_views(parents@),
            oid_views(old(known)@),
        ),
{
    let ghost all = oid_views(parents@);
    let ghost first = oid_views(known@);
    let ghost index = pack.index();
    let mut i: usize = 0;
    assert(all.take(0) =~= Seq::<Seq<u8>>::empty());
    while i < parents.len()
        invariant
            i <= parents@.len(),
            all == oid_views(parents@),
            index == pack.index(),
            oid_views(known@) == with_absent(index, all.take(i as int), first),
        decreases parents.len() - i,
    {
        let parent = parents[i];
        let ghost before = known@;
        assert(all.take(i + 1).drop_last() =~= all.take(i as int));
        assert(all.take(i + 1).last() == parent@);
        if !pack.contains(&parent) && !holds(known.as_slice(), &parent) {
            known.push(parent);
            assert(oid_views(known@) =~= oid_views(before).push(parent@));
        }
        i += 1;
    }
    assert(all.take(i as int) =~= all);
}

fn find_prerequisites(shallow: &[Oid], data: &[u8]) -> (r: Result<Vec<Oid>>)
    ensures
        match parsed(data@, DEFAULT_BASE_CACHE_BYTES as nat) {
            Err(e) => r matches Err(f) && f == e,
            Ok(index) => match prerequisites_of(data@, index, oid_views(shallow@), shallow@.len()) {
                Err(e) => r matches Err(f) && f == e,
                Ok(want) => r matches Ok(list) && oid_views(list@) == want,
            },
        },
{
    let pack = Pack::parse(data)?;
    let ghost index = pack.index();
    let ghost all = oid_views(shallow@);
    let mut list: Vec<Oid> = Vec::new();
    let mut i: usize = 0;
    assert(oid_views(list@) =~= Seq::<Seq<u8>>::empty());
    while i < shallow.len()
        invariant
            i <= shallow@.len(),
            all == oid_views(shallow@),
            index == pack.index(),
            pack.data() == data@,
            parsed(data@, DEFAULT_BASE_CACHE_BYTES as nat) == Ok::<_, Error>(index),
            prerequisites_of(data@, index, all, i as nat) == Ok::<_, Error>(oid_views(list@)),
        decreases shallow.len() - i,
    {
        assert(all[i as int] == shallow@[i as int]@);
        let ghost next = prerequisites_of(data@, index, all, (i + 1) as nat);
        proof {
            if next is Err {
                lemma_prerequisites_err(data@, index, all, (i + 1) as nat, all.len());
            }
        }
        let body = match pack.read_object(&shallow[i])? {
            Some((Kind::Commit, body)) => body,
            Some(_) => {
                return Err(Error::Corrupt("shallow object is not a commit"));
            },
            None => {
                return Err(Error::MissingBase);
            },
        };
        let commit = parse_commit(body.as_slice())?;
        add_absent(&pack, commit.parents.as_slice(), &mut list);
        i += 1;
    }
    Ok(list)
}

proof fn lemma_prerequisites_err(
    data: Seq<u8>,
    index: Seq<PlaceView>,
    shallow: Seq<Seq<u8>>,
    n: nat,
    m: nat,
)
    requires
        n <= m,
        prerequisites_of(data, index, shallow, n) is Err,
    ensures
        prerequisites_of(data, index, shallow, m) == prerequisites_of(data, index, shallow, n),
    decreases m,
{
    if n < m {
        lemma_prerequisites_err(data, index, shallow, n, (m - 1) as nat);
    }
}

/// A bundle (version 2) of refs and a pack. The parents of the commits in `shallow` that are not in
/// the pack become prerequisites.
pub fn write(refs: &[(&[u8], Oid)], shallow: &[Oid], pack: &[u8]) -> (r: Result<Vec<u8>>)
    ensures
        match heads_for(ref_list(refs@), oid_views(shallow@), pack@) {
            Err(e) => r matches Err(f) && f == e,
            Ok(heads) => r matches Ok(data) && data@ == bundle_bytes(heads, pack@),
        },
{
    let ghost all = ref_list(refs@);
    let mut i: usize = 0;
    while i < refs.len()
        invariant
            i <= refs@.len(),
            all == ref_list(refs@),
            forall|k: int| 0 <= k < i ==> valid_ref_name((#[trigger] all[k]).0),
        decreases refs.len() - i,
    {
        let name = refs[i].0;
        assert(all[i as int].0 == name@);
        if name.len() == 0 || has_byte(name, 10) {
            assert(!valid_refs(all));
            return Err(Error::Corrupt("bundle ref name"));
        }
        i += 1;
    }
    let prerequisites: Vec<Oid> = if shallow.len() == 0 {
        Vec::new()
    } else {
        find_prerequisites(shallow, pack)?
    };
    let ghost needed = oid_views(prerequisites@);
    assert(shallow@.len() == 0 ==> needed =~= Seq::<Seq<u8>>::empty());
    let mut out: Vec<u8> = Vec::new();
    out.extend_from_slice(text("# v2 git bundle"));
    out.push(10);
    let ghost head = out@;
    assert(head =~= lit("# v2 git bundle").push(10));
    let mut j: usize = 0;
    assert(needed.skip(0) =~= needed);
    while j < prerequisites.len()
        invariant
            j <= prerequisites@.len(),
            needed == oid_views(prerequisites@),
            out@ + prerequisite_lines(needed.skip(j as int)) == head + prerequisite_lines(needed),
        decreases prerequisites.len() - j,
    {
        let ghost before = out@;
        assert(needed.skip(j as int)[0] == prerequisites@[j as int]@);
        assert(needed.skip(j as int).skip(1) =~= needed.skip(j + 1));
        out.push(45);
        push_hex(&mut out, &prerequisites[j]);
        out.push(10);
        assert(out@ =~= before + (seq![45u8] + to_hex(prerequisites@[j as int]@)).push(10));
        assert(out@ + prerequisite_lines(needed.skip(j + 1)) =~= before + prerequisite_lines(
            needed.skip(j as int),
        ));
        j += 1;
    }
    let ghost middle = out@;
    assert(middle =~= head + prerequisite_lines(needed));
    let mut k: usize = 0;
    assert(all.skip(0) =~= all);
    while k < refs.len()
        invariant
            k <= refs@.len(),
            all == ref_list(refs@),
            out@ + ref_lines(all.skip(k as int)) == middle + ref_lines(all),
        decreases refs.len() - k,
    {
        let ghost before = out@;
        let (name, oid) = refs[k];
        assert(all.skip(k as int)[0] == (name@, oid@));
        assert(all.skip(k as int).skip(1) =~= all.skip(k + 1));
        push_hex(&mut out, &oid);
        out.push(32);
        out.extend_from_slice(name);
        out.push(10);
        assert(out@ =~= before + (to_hex(oid@).push(32) + name@).push(10));
        assert(out@ + ref_lines(all.skip(k + 1)) =~= before + ref_lines(all.skip(k as int)));
        k += 1;
    }
    out.push(10);
    out.extend_from_slice(pack);
    assert(out@ =~= bundle_bytes(Heads { refs: all, prerequisites: needed }, pack@));
    Ok(out)
}

// --- what was written is read -----------------------------------------------------------------------------

proof fn lemma_line(line: Seq<u8>, rest: Seq<u8>, h: Heads)
    requires
        line.len() > 0,
        !line.contains(10),
    ensures
        lines_from(line.push(10) + rest, h) == (match with_line(h, line) {
            Ok(g) => lines_from(rest, g),
            Err(e) => Err(e),
        }),
{
    lemma_cut(line, 10, rest);
}

/// Hexadecimal digits are neither line feeds nor minus signs.
proof fn lemma_hex_digits(b: Seq<u8>, i: int)
    requires
        0 <= i < to_hex(b).len(),
    ensures
        to_hex(b)[i] != 10,
        to_hex(b)[i] != 45,
{
}

proof fn lemma_prerequisite_lines(s: Seq<Seq<u8>>, rest: Seq<u8>, h: Heads)
    requires
        forall|i: int| 0 <= i < s.len() ==> (#[trigger] s[i]).len() == 20,
    ensures
        lines_from(prerequisite_lines(s) + rest, h) == lines_from(
            rest,
            (Heads { prerequisites: h.prerequisites + s, ..h }),
        ),
    decreases s.len(),
{
    if s.len() == 0 {
        assert(prerequisite_lines(s) + rest =~= rest);
        assert(h.prerequisites + s =~= h.prerequisites);
    } else {
        let hex = to_hex(s[0]);
        let line = seq![45u8] + hex;
        let others = s.skip(1);
        let after = prerequisite_lines(others) + rest;
        assert(s[0].len() == 20);
        assert(prerequisite_lines(s) + rest =~= line.push(10) + after);
        assert(!line.contains(10)) by {
            assert forall|i: int| 0 <= i < line.len() implies line[i] != 10 by {
                if i > 0 {
                    lemma_hex_digits(s[0], i - 1);
                    assert(line[i] == hex[i - 1]);
                }
            }
        }
        lemma_line(line, after, h);
        assert(line.subrange(1, 41) =~= hex);
        hex_round_trip(s[0]);
        let g = Heads { prerequisites: h.prerequisites.push(s[0]), ..h };
        assert forall|i: int| 0 <= i < others.len() implies (#[trigger] others[i]).len() == 20 by {
            assert(others[i] == s[i + 1]);
        }
        lemma_prerequisite_lines(others, rest, g);
        assert(g.prerequisites + others =~= h.prerequisites + s);
    }
}

proof fn lemma_ref_lines(refs: Seq<(Seq<u8>, Seq<u8>)>, rest: Seq<u8>, h: Heads)
    requires
        valid_refs(refs),
        forall|i: int| 0 <= i < refs.len() ==> (#[trigger] refs[i]).1.len() == 20,
    ensures
        lines_from(ref_lines(refs) + rest, h) == lines_from(
            rest,
            (Heads { refs: h.refs + refs, ..h }),
        ),
    decreases refs.len(),
{
    if refs.len() == 0 {
        assert(ref_lines(refs) + rest =~= rest);
        assert(h.refs + refs =~= h.refs);
    } else {
        let (name, oid) = refs[0];
        let hex = to_hex(oid);
        let line = hex.push(32) + name;
        let others = refs.skip(1);
        let after = ref_lines(others) + rest;
        assert(refs[0].1.len() == 20 && valid_ref_name(refs[0].0));
        assert(ref_lines(refs) + rest =~= line.push(10) + after);
        assert(!line.contains(10)) by {
            assert forall|i: int| 0 <= i < line.len() implies line[i] != 10 by {
                if i < hex.len() {
                    lemma_hex_digits(oid, i);
                    assert(line[i] == hex[i]);
                } else if i > hex.len() {
                    assert(line[i] == name[i - hex.len() - 1]);
                }
            }
        }
        lemma_line(line, after, h);
        lemma_hex_digits(oid, 0);
        assert(line[0] == hex[0]);
        assert(line.take(40) =~= hex);
        assert(line.skip(41) =~= name);
        hex_round_trip(oid);
        let g = Heads { refs: h.refs.push((name, oid)), ..h };
        assert forall|i: int| 0 <= i < others.len() implies (#[trigger] others[i]).1.len() == 20
            && valid_ref_name(others[i].0) by {
            assert(others[i] == refs[i + 1]);
        }
        lemma_ref_lines(others, rest, g);
        assert(g.refs + others =~= h.refs + refs);
    }
}

/// Reading a bundle that was written gives back its refs, its prerequisites and its pack.
pub proof fn bundle_round_trip(h: Heads, pack: Seq<u8>)
    requires
        valid_refs(h.refs),
        forall|i: int| 0 <= i < h.refs.len() ==> (#[trigger] h.refs[i]).1.len() == 20,
        forall|i: int| 0 <= i < h.prerequisites.len() ==> (#[trigger] h.prerequisites[i]).len() == 20,
    ensures
        heads_of(bundle_bytes(h, pack)) == Ok::<_, Error>((h, pack)),
{
    let end = seq![10u8] + pack;
    let refs = ref_lines(h.refs) + end;
    let body = prerequisite_lines(h.prerequisites) + refs;
    reveal_strlit("# v2 git bundle");
    lemma_lit("# v2 git bundle");
    lemma_cut(lit("# v2 git bundle"), 10, body);
    lemma_prerequisite_lines(h.prerequisites, refs, no_heads());
    let g = Heads { prerequisites: no_heads().prerequisites + h.prerequisites, ..no_heads() };
    lemma_ref_lines(h.refs, end, g);
    let none = Seq::<u8>::empty();
    lemma_cut(none, 10, pack);
    assert(none.push(10) + pack =~= end);
    assert(no_heads().prerequisites + h.prerequisites =~= h.prerequisites);
    assert(no_heads().refs + h.refs =~= h.refs);
}

// --- prerequisites ---------------------------------------------------------------------------------------

/// What is known stays known, and what comes to it are parents that are not in the pack.
proof fn lemma_with_absent(index: Seq<PlaceView>, parents: Seq<Seq<u8>>, known: Seq<Seq<u8>>)
    ensures
        with_absent(index, parents, known).len() >= known.len(),
        with_absent(index, parents, known).take(known.len() as int) == known,
        known.no_duplicates() ==> with_absent(index, parents, known).no_duplicates(),
        forall|i: int|
            known.len() <= i < with_absent(index, parents, known).len() ==> parents.contains(
                #[trigger] with_absent(index, parents, known)[i],
            ) && !has_id(index, with_absent(index, parents, known)[i]),
        forall|i: int|
            0 <= i < parents.len() ==> has_id(index, #[trigger] parents[i]) || with_absent(
                index,
                parents,
                known,
            ).contains(parents[i]),
    decreases parents.len(),
{
    let all = with_absent(index, parents, known);
    if parents.len() == 0 {
        assert(known.take(known.len() as int) =~= known);
    } else {
        let rest = parents.drop_last();
        let before = with_absent(index, rest, known);
        lemma_with_absent(index, rest, known);
        assert(all.take(known.len() as int) =~= before.take(known.len() as int));
        assert forall|i: int| known.len() <= i < all.len() implies parents.contains(#[trigger] all[i])
            && !has_id(index, all[i]) by {
            if i < before.len() {
                assert(all[i] == before[i]);
                let k = choose|k: int| 0 <= k < rest.len() && rest[k] == before[i];
                assert(parents[k] == all[i]);
            } else {
                assert(parents[parents.len() - 1] == all[i]);
            }
        }
        assert forall|i: int| 0 <= i < parents.len() implies has_id(index, #[trigger] parents[i])
            || all.contains(parents[i]) by {
            if i < rest.len() {
                assert(rest[i] == parents[i]);
                if before.contains(parents[i]) {
                    let k = choose|k: int| 0 <= k < before.len() && before[k] == parents[i];
                    assert(all[k] == parents[i]);
                }
            } else if !has_id(index, parents[i]) && !before.contains(parents[i]) {
                assert(all[all.len() - 1] == parents[i]);
            }
        }
    }
}

/// The id is that of a parent of one of the first `n` commits of `shallow`, and not in the pack.
pub open spec fn absent_parent(
    data: Seq<u8>,
    index: Seq<PlaceView>,
    shallow: Seq<Seq<u8>>,
    n: nat,
    oid: Seq<u8>,
) -> bool {
    !has_id(index, oid) && exists|k: int|
        0 <= k < n && parents_at(data, index, #[trigger] shallow[k]).contains(oid)
}

/// The parents of the commit with the id.
pub open spec fn parents_at(data: Seq<u8>, index: Seq<PlaceView>, oid: Seq<u8>) -> Seq<Seq<u8>> {
    match object_in(data, index, oid) {
        Ok(Some((Kind::Commit, body))) => match commit_view(body) {
            Ok(c) => c.parents,
            Err(_) => Seq::empty(),
        },
        _ => Seq::empty(),
    }
}

/// The prerequisites of a bundle are the parents of its shallow commits that are not in the pack,
/// each once.
pub proof fn prerequisites_are_the_absent_parents(
    data: Seq<u8>,
    index: Seq<PlaceView>,
    shallow: Seq<Seq<u8>>,
    n: nat,
)
    requires
        n <= shallow.len(),
        prerequisites_of(data, index, shallow, n) is Ok,
    ensures
        prerequisites_of(data, index, shallow, n) matches Ok(list) && list.no_duplicates() && forall|
            oid: Seq<u8>,
        | #[trigger] list.contains(oid) <==> absent_parent(data, index, shallow, n, oid),
    decreases n,
{
    let list = prerequisites_of(data, index, shallow, n)->Ok_0;
    if n == 0 {
        assert forall|oid: Seq<u8>| #[trigger] list.contains(oid) <==> absent_parent(
            data,
            index,
            shallow,
            n,
            oid,
        ) by {}
    } else {
        let m = (n - 1) as nat;
        let known = prerequisites_of(data, index, shallow, m)->Ok_0;
        let parents = parents_at(data, index, shallow[n - 1]);
        prerequisites_are_the_absent_parents(data, index, shallow, m);
        lemma_with_absent(index, parents, known);
        assert(list == with_absent(index, parents, known));
        assert forall|oid: Seq<u8>| #[trigger] list.contains(oid) <==> absent_parent(
            data,
            index,
            shallow,
            n,
            oid,
        ) by {
            if list.contains(oid) {
                let i = choose|i: int| 0 <= i < list.len() && list[i] == oid;
                if i < known.len() {
                    assert(list.take(known.len() as int)[i] == oid);
                    assert(known.contains(oid));
                    let k = choose|k: int|
                        0 <= k < m && parents_at(data, index, #[trigger] shallow[k]).contains(oid);
                    assert(parents_at(data, index, shallow[k]).contains(oid));
                } else {
                    assert(parents_at(data, index, shallow[n - 1]).contains(oid));
                }
            }
            if absent_parent(data, index, shallow, n, oid) {
                let k = choose|k: int|
                    0 <= k < n && parents_at(data, index, #[trigger] shallow[k]).contains(oid);
                if k < m {
                    assert(absent_parent(data, index, shallow, m, oid));
                    assert(known.contains(oid));
                    let i = choose|i: int| 0 <= i < known.len() && known[i] == oid;
                    assert(list.take(known.len() as int)[i] == oid);
                    assert(list[i] == oid);
                } else {
                    let i = choose|i: int| 0 <= i < parents.len() && parents[i] == oid;
                    assert(parents[i] == oid);
                }
            }
        }
    }
}

/// A bundle that was written is read: its refs are those that it was written for, its prerequisites
/// and its pack come with them.
pub proof fn written_bundle_is_read(
    refs: Seq<(Seq<u8>, Seq<u8>)>,
    shallow: Seq<Seq<u8>>,
    pack: Seq<u8>,
)
    requires
        heads_for(refs, shallow, pack) is Ok,
        forall|i: int| 0 <= i < refs.len() ==> (#[trigger] refs[i]).1.len() == 20,
    ensures
        heads_for(refs, shallow, pack) matches Ok(heads) && heads.refs == refs && heads_of(
            bundle_bytes(heads, pack),
        ) == Ok::<_, Error>((heads, pack)),
{
    let heads = heads_for(refs, shallow, pack)->Ok_0;
    if shallow.len() > 0 {
        let index = parsed(pack, DEFAULT_BASE_CACHE_BYTES as nat)->Ok_0;
        let n = shallow.len();
        prerequisites_are_the_absent_parents(pack, index, shallow, n);
        assert forall|i: int| 0 <= i < heads.prerequisites.len() implies (
        #[trigger] heads.prerequisites[i]).len() == 20 by {
            let oid = heads.prerequisites[i];
            assert(heads.prerequisites.contains(oid));
            let k = choose|k: int|
                0 <= k < n && parents_at(pack, index, #[trigger] shallow[k]).contains(oid);
            if let Ok(Some((Kind::Commit, body))) = object_in(pack, index, shallow[k]) {
                lemma_commit_ids(body);
            }
        }
    }
    bundle_round_trip(heads, pack);
}

} // verus!
