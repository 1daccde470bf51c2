//! What a small device asks of a bundle in its flash: how long the history is and what its latest
//! commit is about. Memory is handed out from one block and never taken back.

use vstd::prelude::*;

use crate::bundle::{heads_of, ref_list, Bundle};
use crate::bytes::{owned, up_to};
use crate::err::Error;
use crate::history::order::{all_commits, lemma_limit, tips_of};
use crate::history::{peeled, reachable_set, unbroken, Walk};
use crate::log::{
    commit_at, lemma_listing_end, lemma_listing_start, listed, listing, next_listed, push_refs, subject, subject_of,
    targets,
};
use crate::pack::{parsed, DEFAULT_BASE_CACHE_BYTES};
use crate::text::{decimal_text, push_number};
use crate::Odb;

verus! {

// --- memory --------------------------------------------------------------------------------------------------

/// The lowest multiple of `align` that is not below `next`.
pub open spec fn aligned(next: int, align: int) -> int {
    if next % align == 0 {
        next
    } else {
        next + align - next % align
    }
}

/// Where a block of the given size goes in a heap of which everything before `next` is in use, and
/// where the next one may start. Blocks do not overlap: each starts where `next` is or later.
pub fn place(next: usize, align: usize, size: usize, heap: usize) -> (r: Option<(usize, usize)>)
    requires
        align > 0,
    ensures
        match r {
            Some((start, end)) => {
                &&& start == aligned(next as int, align as int)
                &&& next <= start
                &&& start as int % align as int == 0
                &&& end == start + size
                &&& end <= heap
            },
            None => aligned(next as int, align as int) + size > heap,
        },
{
    let over: usize = next % align;
    let pad: usize = if over == 0 {
        0
    } else {
        align - over
    };
    proof {
        let (n, a) = (next as int, align as int);
        vstd::arithmetic::div_mod::lemma_fundamental_div_mod(n, a);
        if n % a != 0 {
            let q = n / a;
            assert(n + a - n % a == a * (q + 1)) by (nonlinear_arith)
                requires
                    n == a * q + n % a,
            ;
            vstd::arithmetic::div_mod::lemma_mod_multiples_basic(q + 1, a);
            assert((q + 1) * a == a * (q + 1)) by (nonlinear_arith);
        }
    }
    let start: usize = match next.checked_add(pad) {
        Some(start) => start,
        None => {
            return None;
        },
    };
    let end: usize = match start.checked_add(size) {
        Some(end) => end,
        None => {
            return None;
        },
    };
    if end > heap {
        return None;
    }
    Some((start, end))
}

// --- the history -----------------------------------------------------------------------------------------------

/// A number, or the greatest that a counter holds.
pub open spec fn saturated(n: nat, max: nat) -> nat {
    if n < max {
        n
    } else {
        max
    }
}

/// Why there is no answer.
#[derive(Debug, Clone, Copy, PartialEq, Eq, Structural)]
pub enum Failure {
    /// The bundle is broken.
    Parse,
    /// A ref leads to no commit, or there is none.
    Push,
    /// A commit is broken.
    Walk,
}

/// The commits of a bundle, from the latest on.
pub open spec fn history_of<O: Odb>(
    odb: &O,
    refs: Seq<(Seq<u8>, Seq<u8>)>,
) -> core::result::Result<Seq<Seq<u8>>, Failure> {
    match tips_of(odb, targets(refs)) {
        Err(_) => Err(Failure::Push),
        Ok(tips) => if !unbroken(odb, tips) {
            Err(Failure::Walk)
        } else {
            Ok(all_commits(odb, reachable_set(odb, tips)))
        },
    }
}

/// The first line of the message of a commit, cut off at `limit` bytes.
pub open spec fn cut_subject<O: Odb>(odb: &O, oid: Seq<u8>, limit: nat) -> Seq<u8> {
    let line = subject_of(commit_at(odb, oid).message);
    line.take(saturated(line.len(), limit) as int)
}

/// The first line of the message of the first commit of a list.
pub open spec fn head_line<O: Odb>(odb: &O, list: Seq<Seq<u8>>, limit: nat) -> Seq<u8> {
    if list.len() == 0 {
        Seq::empty()
    } else {
        cut_subject(odb, list[0], limit)
    }
}

fn cut_off(line: &[u8], limit: usize) -> (r: Vec<u8>)
    ensures
        r@ == line@.take(saturated(line@.len(), limit as nat) as int),
{
    if line.len() <= limit {
        assert(line@.take(line@.len() as int) =~= line@);
        owned(line)
    } else {
        owned(up_to(line, limit))
    }
}

/// How many commits can be reached from the refs of a bundle, and what the latest of them is about,
/// in `limit` bytes at most.
pub fn tally(bundle: &Bundle<'_>, limit: usize) -> (r: core::result::Result<(u32, Vec<u8>), Failure>)
    ensures
        match (r, history_of(&bundle.pack, ref_list(bundle.refs@))) {
            (Ok((count, head)), Ok(list)) => count == saturated(list.len(), u32::MAX as nat) && head@
                == head_line(&bundle.pack, list, limit as nat),
            (Err(e), Err(f)) => e == f,
            _ => false,
        },
{
    let mut walk = Walk::new(&bundle.pack);
    if push_refs(&mut walk, bundle.refs.as_slice()).is_err() {
        return Err(Failure::Push);
    }
    let ghost odb = &bundle.pack;
    let ghost refs = ref_list(bundle.refs@);
    let ghost tips = walk@.tips;
    let ghost all = reachable_set(odb, tips);
    let ghost bound: nat = all.len() + 1;
    let ghost mut done = Seq::<Seq<u8>>::empty();
    let mut head: Vec<u8> = Vec::new();
    let mut count: u32 = 0;
    proof {
        lemma_listing_start(&walk, odb, tips, bound);
        assert(head@ =~= head_line(odb, done, limit as nat));
    }
    loop
        invariant
            odb == &bundle.pack,
            refs == ref_list(bundle.refs@),
            all == reachable_set(odb, tips),
            bound == all.len() + 1,
            tips_of(odb, targets(refs)) == Ok::<_, Error>(tips),
            listing(&walk, odb, tips, bound, done),
            done.len() > 0 ==> all.finite() && walk@.left.finite() && walk@.left.len() + done.len()
                == all.len(),
            head@ == head_line(odb, done, limit as nat),
            count == saturated(done.len(), u32::MAX as nat),
        decreases bound - done.len(),
    {
        let ghost left = walk.to_come();
        let walked = match next_listed(
            &mut walk,
            Ghost(odb),
            Ghost(tips),
            Ghost(bound),
            Ghost(done),
        ) {
            None => {
                proof {
                    lemma_all_listed(odb, tips, bound, done);
                }
                return Ok((count, head));
            },
            Some(Err(_)) => {
                return Err(Failure::Walk);
            },
            Some(Ok(walked)) => walked,
        };
        proof {
            if done.len() == 0 {
                assert(left == all);
                assert(all =~= walk@.left.insert(walked.oid@));
            }
        }
        if count == 0 {
            if let Ok(commit) = walked.commit() {
                head = cut_off(subject(commit.message), limit);
            }
        }
        if count < u32::MAX {
            count += 1;
        }
        proof {
            done = done.push(walked.oid@);
        }
    }
}

/// The list that ends is the whole history.
proof fn lemma_all_listed<O: Odb>(odb: &O, tips: Seq<Seq<u8>>, bound: nat, done: Seq<Seq<u8>>)
    requires
        listed(odb, tips, bound) == Ok::<_, Error>(done),
        bound == reachable_set(odb, tips).len() + 1,
        reachable_set(odb, tips).finite(),
    ensures
        unbroken(odb, tips),
        done == all_commits(odb, reachable_set(odb, tips)),
{
    lemma_limit(odb, reachable_set(odb, tips), bound);
}

/// The bundle is the one that the bytes hold.
pub open spec fn is_parsed(bundle: Bundle<'_>, data: Seq<u8>) -> bool {
    heads_of(data) matches Ok((heads, pack)) && parsed(pack, DEFAULT_BASE_CACHE_BYTES as nat)
        matches Ok(index) && ref_list(bundle.refs@) == heads.refs && bundle.pack.data() == pack
        && bundle.pack.index() == index
}

/// The bytes hold a bundle.
pub open spec fn parses(data: Seq<u8>) -> bool {
    heads_of(data) matches Ok((heads, pack)) && parsed(pack, DEFAULT_BASE_CACHE_BYTES as nat) is Ok
}

/// The code of a failure.
pub open spec fn failure_code(f: Failure) -> int {
    match f {
        Failure::Parse => -1,
        Failure::Push => -2,
        Failure::Walk => -3,
    }
}

/// How many commits a bundle holds that refs lead to, or the code of a failure.
pub open spec fn count_of<O: Odb>(odb: &O, refs: Seq<(Seq<u8>, Seq<u8>)>) -> int {
    match history_of(odb, refs) {
        Ok(list) => saturated(list.len(), i32::MAX as nat) as int,
        Err(f) => failure_code(f),
    }
}

/// How many commits can be reached from the refs of a bundle. Negative numbers are errors: the
/// bundle is broken, a ref leads to no commit, a commit is broken.
pub fn commit_count(data: &[u8]) -> (r: i32)
    ensures
        !parses(data@) ==> r == failure_code(Failure::Parse),
        parses(data@) ==> exists|bundle: Bundle<'_>| #[trigger]
            is_parsed(bundle, data@) && r == count_of(&bundle.pack, ref_list(bundle.refs@)),
{
    let bundle = match Bundle::parse(data) {
        Ok(bundle) => bundle,
        Err(_) => {
            return -1;
        },
    };
    assert(is_parsed(bundle, data@));
    match tally(&bundle, 0) {
        Ok((count, _)) => if count > i32::MAX as u32 {
            i32::MAX
        } else {
            count as i32
        },
        Err(Failure::Push) => -2,
        Err(Failure::Walk) => -3,
        Err(Failure::Parse) => -1,
    }
}

/// What the commit that the first ref leads to is about, or what is wrong.
pub open spec fn subject_in<O: Odb>(
    odb: &O,
    refs: Seq<(Seq<u8>, Seq<u8>)>,
    limit: nat,
) -> core::result::Result<Seq<u8>, Failure> {
    if refs.len() == 0 {
        Err(Failure::Push)
    } else {
        match peeled(odb, refs[0].1, 16) {
            Err(_) => Err(Failure::Push),
            Ok(tip) => match listed(odb, seq![tip], 1) {
                Err(_) => Err(Failure::Walk),
                Ok(list) => if list.len() == 0 {
                    Err(Failure::Walk)
                } else {
                    Ok(cut_subject(odb, list[0], limit))
                },
            },
        }
    }
}

/// The first line of the message of the commit that the first ref leads to, cut off at `limit`
/// bytes.
pub fn head_subject(data: &[u8], limit: usize) -> (r: core::result::Result<Vec<u8>, Failure>)
    ensures
        !parses(data@) ==> (r matches Err(f) && f == Failure::Parse),
        parses(data@) ==> exists|bundle: Bundle<'_>| #[trigger]
            is_parsed(bundle, data@) && match (
                r,
                subject_in(&bundle.pack, ref_list(bundle.refs@), limit as nat),
            ) {
                (Ok(line), Ok(want)) => line@ == want,
                (Err(e), Err(f)) => e == f,
                _ => false,
            },
{
    let bundle = match Bundle::parse(data) {
        Ok(bundle) => bundle,
        Err(_) => {
            return Err(Failure::Parse);
        },
    };
    assert(is_parsed(bundle, data@));
    if bundle.refs.len() == 0 {
        return Err(Failure::Push);
    }
    let ghost odb = &bundle.pack;
    let mut walk = Walk::new(&bundle.pack);
    assert(ref_list(bundle.refs@)[0].1 == bundle.refs@[0].1@);
    if walk.push(bundle.refs[0].1).is_err() {
        return Err(Failure::Push);
    }
    let ghost tips = walk@.tips;
    let ghost none = Seq::<Seq<u8>>::empty();
    proof {
        assert(tips =~= seq![tips[0]]);
        lemma_listing_start(&walk, odb, tips, 1);
    }
    let tip = match next_listed(&mut walk, Ghost(odb), Ghost(tips), Ghost(1), Ghost(none)) {
        Some(Ok(tip)) => tip,
        _ => {
            return Err(Failure::Walk);
        },
    };
    proof {
        lemma_listing_end(&walk, odb, tips, 1, none.push(tip.oid@));
    }
    match tip.commit() {
        Ok(commit) => Ok(cut_off(subject(commit.message), limit)),
        Err(_) => Err(Failure::Walk),
    }
}

// --- the report of a device --------------------------------------------------------------------------------------

/// Bytes shown one by one as characters.
pub open spec fn byte_chars(s: Seq<u8>) -> Seq<char> {
    s.map_values(|b: u8| b as char)
}

/// The longest subject in a report.
pub const HEAD_LEN: usize = 64;

/// The line that reports how many commits there are and what the latest is about, or what is wrong.
pub open spec fn report_line(
    outcome: core::result::Result<(nat, Seq<u8>), Failure>,
) -> Seq<char> {
    match outcome {
        Err(Failure::Parse) => "TIG-FAIL parse\n"@,
        Err(Failure::Push) => "TIG-FAIL push\n"@,
        Err(Failure::Walk) => "TIG-FAIL walk\n"@,
        Ok((count, head)) => "TIG-OK count="@ + decimal_text(count) + " head="@ + byte_chars(head)
            + "\n"@,
    }
}

/// What the report on a bundle is about.
pub open spec fn outcome_in<O: Odb>(
    odb: &O,
    refs: Seq<(Seq<u8>, Seq<u8>)>,
) -> core::result::Result<(nat, Seq<u8>), Failure> {
    match history_of(odb, refs) {
        Err(f) => Err(f),
        Ok(list) => Ok(
            (
                saturated(list.len(), u32::MAX as nat),
                head_line(odb, list, HEAD_LEN as nat),
            ),
        ),
    }
}

/// The line that reports an outcome.
pub fn line_for(outcome: &core::result::Result<(u32, Vec<u8>), Failure>) -> (r: String)
    ensures
        r@ == report_line(
            match outcome {
                Ok((count, head)) => Ok((*count as nat, head@)),
                Err(f) => Err(*f),
            },
        ),
{
    let mut out = String::new();
    match outcome {
        Err(Failure::Parse) => {
            out.append("TIG-FAIL parse\n");
            assert(out@ =~= "TIG-FAIL parse\n"@);
        },
        Err(Failure::Push) => {
            out.append("TIG-FAIL push\n");
            assert(out@ =~= "TIG-FAIL push\n"@);
        },
        Err(Failure::Walk) => {
            out.append("TIG-FAIL walk\n");
            assert(out@ =~= "TIG-FAIL walk\n"@);
        },
        Ok((count, head)) => {
            out.append("TIG-OK count=");
            push_number(&mut out, *count as u64);
            out.append(" head=");
            let ghost start = out@;
            let mut i: usize = 0;
            assert(start + byte_chars(head@.take(0)) =~= start);
            while i < head.len()
                invariant
                    i <= head@.len(),
                    out@ == start + byte_chars(head@.take(i as int)),
                decreases head.len() - i,
            {
                out.push(head[i] as char);
                assert(out@ =~= start + byte_chars(head@.take(i + 1)));
                i += 1;
            }
            assert(head@.take(i as int) =~= head@);
            out.append("\n");
            assert(out@ =~= report_line(Ok((*count as nat, head@))));
        },
    }
    out
}

/// The report on a bundle, and whether it holds the three commits that are expected.
pub fn report(data: &[u8]) -> (r: (String, bool))
    ensures
        !parses(data@) ==> r.0@ == report_line(Err(Failure::Parse)) && !r.1,
        parses(data@) ==> exists|bundle: Bundle<'_>| #[trigger]
            is_parsed(bundle, data@) && r.0@ == report_line(
                outcome_in(&bundle.pack, ref_list(bundle.refs@)),
            ) && r.1 == (outcome_in(&bundle.pack, ref_list(bundle.refs@)) matches Ok((count, _))
                && count == 3),
{
    let outcome = match Bundle::parse(data) {
        Ok(bundle) => {
            assert(is_parsed(bundle, data@));
            tally(&bundle, HEAD_LEN)
        },
        Err(_) => Err(Failure::Parse),
    };
    let line = line_for(&outcome);
    let expected = match &outcome {
        Ok((count, _)) => *count == 3,
        Err(_) => false,
    };
    (line, expected)
}

} // verus!
