//! What is printed, and from where the history goes.

use vstd::prelude::*;

use crate::bundle::ref_named;
use crate::bytes::{find, lemma_find, split};
use crate::cli::{
    entries_text, entry_text, message_text, push_text, readable_lines, ref_line, refs_text, result_lines,
    Format,
};
use crate::err::Error;
use crate::history::laws::is_walk;
use crate::history::order::{
    commits_from, every_commit_is_listed, lemma_next_of, listed_commits_are_a_walk, next_of, tips_of,
};
use crate::history::{
    comes_next, commit_in, earlier, in_reach, may_come, parents_of, peeled, reachable, reachable_set, reached,
    unbroken,
};
use crate::log::{commit_at, listed, starts, subject_of, targets, StartError};
use crate::mcu::{aligned, count_of, cut_subject, subject_in, Failure};
use crate::object::CommitView;
use crate::oid::hex_text;
use crate::protov0::{ReportView, ResultView};
use crate::text::{readable_text, signed_text};
use crate::web::{free_from, le32};
use crate::Odb;

verus! {

// --- where a history starts -----------------------------------------------------------------------------

proof fn lemma_tips<O: Odb>(odb: &O, oids: Seq<Seq<u8>>)
    ensures
        match tips_of(odb, oids) {
            Ok(tips) => tips.len() == oids.len() && forall|i: int|
                0 <= i < oids.len() ==> peeled(odb, #[trigger] oids[i], 16) == Ok::<_, Error>(tips[i]),
            Err(e) => exists|i: int|
                0 <= i < oids.len() && peeled(odb, #[trigger] oids[i], 16) == Err::<Seq<u8>, _>(e),
        },
    decreases oids.len(),
{
    if oids.len() > 0 {
        let front = oids.drop_last();
        lemma_tips(odb, front);
        match tips_of(odb, front) {
            Ok(tips) => {
                assert(oids.last() == oids[oids.len() - 1]);
                if let Ok(all) = tips_of(odb, oids) {
                    assert forall|i: int| 0 <= i < oids.len() implies peeled(odb, #[trigger] oids[i], 16) == Ok::<
                        _,
                        Error,
                    >(all[i]) by {
                        if i < front.len() {
                            assert(front[i] == oids[i]);
                        }
                    }
                }
            },
            Err(e) => {
                let i = choose|i: int|
                    0 <= i < front.len() && peeled(odb, #[trigger] front[i], 16) == Err::<Seq<u8>, _>(e);
                assert(oids[i] == front[i]);
            },
        }
    }
}

/// A history starts at what every ref leads to, or the one that is named; it does not start where one
/// of them leads to no commit, or where no ref has the name.
pub proof fn histories_start_at_the_refs<O: Odb>(
    odb: &O,
    refs: Seq<(Seq<u8>, Seq<u8>)>,
    name: Option<Seq<u8>>,
)
    ensures
        name is None ==> match starts(odb, refs, name) {
            Ok(tips) => tips.len() == refs.len() && forall|i: int|
                0 <= i < refs.len() ==> peeled(odb, (#[trigger] refs[i]).1, 16) == Ok::<_, Error>(tips[i]),
            Err(StartError::Refused(e)) => exists|i: int|
                0 <= i < refs.len() && peeled(odb, (#[trigger] refs[i]).1, 16) == Err::<Seq<u8>, _>(e),
            Err(StartError::NoRef) => false,
        },
        name matches Some(n) ==> match ref_named(refs, n) {
            None => starts(odb, refs, name) == Err::<Seq<Seq<u8>>, _>(StartError::NoRef),
            Some(oid) => match peeled(odb, oid, 16) {
                Ok(tip) => starts(odb, refs, name) == Ok::<_, StartError>(seq![tip]),
                Err(e) => starts(odb, refs, name) == Err::<Seq<Seq<u8>>, _>(StartError::Refused(e)),
            },
        },
{
    let oids = targets(refs);
    lemma_tips(odb, oids);
    if name is None {
        assert forall|i: int| 0 <= i < refs.len() implies (#[trigger] refs[i]).1 == oids[i] by {}
        if let Err(e) = tips_of(odb, oids) {
            let i = choose|i: int|
                0 <= i < oids.len() && peeled(odb, #[trigger] oids[i], 16) == Err::<Seq<u8>, _>(e);
            assert(peeled(odb, refs[i].1, 16) == Err::<Seq<u8>, _>(e));
        }
    }
    if let Some(n) = name {
        if let Some(oid) = ref_named(refs, n) {
            let one = seq![oid];
            assert(one.drop_last() =~= Seq::<Seq<u8>>::empty());
            assert(tips_of(odb, one.drop_last()) == Ok::<_, Error>(Seq::<Seq<u8>>::empty()));
            assert(one.last() == oid);
            if let Ok(tip) = peeled(odb, oid, 16) {
                assert(Seq::<Seq<u8>>::empty().push(tip) =~= seq![tip]);
            }
        }
    }
}

proof fn lemma_shorter<O: Odb>(odb: &O, left: Set<Seq<u8>>, a: nat, b: nat)
    requires
        a <= b,
    ensures
        ({
            let all = commits_from(odb, left, b);
            commits_from(odb, left, a) == all.take(
                if a < all.len() {
                    a as int
                } else {
                    all.len() as int
                },
            )
        }),
    decreases b,
{
    let all = commits_from(odb, left, b);
    if a == 0 {
        assert(commits_from(odb, left, a) =~= all.take(0));
    } else if let Some(oid) = next_of(odb, left) {
        let (m, n) = ((a - 1) as nat, (b - 1) as nat);
        lemma_shorter(odb, left.remove(oid), m, n);
        let rest = commits_from(odb, left.remove(oid), n);
        let k = if m < rest.len() {
            m as int
        } else {
            rest.len() as int
        };
        assert(seq![oid] + rest.take(k) =~= (seq![oid] + rest).take(k + 1));
    } else {
        assert(all.take(0) =~= all);
    }
}

/// A list with a limit is the start of a longer one, with as many commits as the limit says or all of
/// them, and goes as the walk does.
pub proof fn limits_cut_off_the_list<O: Odb>(odb: &O, tips: Seq<Seq<u8>>, a: nat, b: nat)
    requires
        a <= b,
        listed(odb, tips, b) is Ok,
    ensures
        listed(odb, tips, b) matches Ok(all) && {
            &&& listed(odb, tips, a) == Ok::<_, Error>(
                all.take(
                    if a < all.len() {
                        a as int
                    } else {
                        all.len() as int
                    },
                ),
            )
            &&& is_walk(odb, reachable_set(odb, tips), all)
            &&& all.len() <= b
        },
{
    let set = reachable_set(odb, tips);
    let all = listed(odb, tips, b)->Ok_0;
    lemma_shorter(odb, set, a, b);
    listed_commits_are_a_walk(odb, set, b);
    if b == 0 {
        assert(all.take(0) =~= Seq::<Seq<u8>>::empty());
    } else if a == 0 {
        assert(all.take(0) =~= Seq::<Seq<u8>>::empty());
    }
}

/// Whatever is reached from one start point is the start point or a parent of something reached.
proof fn lemma_has_child<O: Odb>(odb: &O, tip: Seq<u8>, oid: Seq<u8>, n: nat) -> (child: Seq<u8>)
    requires
        reached(odb, seq![tip], oid, n),
        oid != tip,
    ensures
        parents_of(odb, child).contains(oid),
        in_reach(odb, seq![tip], child),
    decreases n,
{
    if n == 0 {
        let k = choose|k: int| 0 <= k < seq![tip].len() && seq![tip][k] == oid;
        assert(seq![tip][k] == tip);
        tip
    } else if reached(odb, seq![tip], oid, (n - 1) as nat) {
        lemma_has_child(odb, tip, oid, (n - 1) as nat)
    } else {
        choose|child: Seq<u8>| #[trigger]
            parents_of(odb, child).contains(oid) && reached(odb, seq![tip], child, (n - 1) as nat)
    }
}

/// A history from one commit begins with it, where no commit is its own ancestor.
pub proof fn histories_begin_where_they_start<O: Odb>(
    odb: &O,
    tip: Seq<u8>,
    limit: nat,
    rank: spec_fn(Seq<u8>) -> nat,
)
    requires
        limit > 0,
        commit_in(odb, tip) is Some,
        listed(odb, seq![tip], limit) is Ok,
        forall|x: Seq<u8>, p: Seq<u8>|
            reachable(odb, seq![tip], x) && #[trigger] parents_of(odb, x).contains(p) ==> rank(p) < rank(x),
    ensures
        listed(odb, seq![tip], limit) matches Ok(list) && list.len() > 0 && list[0] == tip,
{
    let tips = seq![tip];
    let set = reachable_set(odb, tips);
    assert(tips[0] == tip);
    assert(reached(odb, tips, tip, 0));
    assert(set.contains(tip));
    assert forall|x: Seq<u8>| #[trigger] set.contains(x) implies x == tip || rank(x) < rank(tip) by {
        let n = choose|n: nat| reached(odb, tips, x, n);
        lemma_ranks(odb, tip, x, n, rank);
    }
    assert(may_come(odb, set, tip)) by {
        assert forall|child: Seq<u8>| #[trigger] set.contains(child) implies !parents_of(odb, child).contains(
            tip,
        ) by {
            if parents_of(odb, child).contains(tip) {
                assert(reachable(odb, tips, child));
                assert(rank(tip) < rank(child));
            }
        }
    }
    assert forall|other: Seq<u8>| #[trigger] may_come(odb, set, other) && other != tip implies earlier(
        odb,
        other,
        tip,
    ) by {
        let n = choose|n: nat| reached(odb, tips, other, n);
        let child = lemma_has_child(odb, tip, other, n);
        assert(commit_in(odb, child) is Some);
        assert(set.contains(child));
    }
    assert(comes_next(odb, set, tip));
    lemma_next_of(odb, set, tip);
}

/// Ancestors have a lower rank.
proof fn lemma_ranks<O: Odb>(odb: &O, tip: Seq<u8>, oid: Seq<u8>, n: nat, rank: spec_fn(Seq<u8>) -> nat)
    requires
        reached(odb, seq![tip], oid, n),
        forall|x: Seq<u8>, p: Seq<u8>|
            reachable(odb, seq![tip], x) && #[trigger] parents_of(odb, x).contains(p) ==> rank(p) < rank(x),
    ensures
        oid == tip || rank(oid) < rank(tip),
    decreases n,
{
    if n == 0 {
        let k = choose|k: int| 0 <= k < seq![tip].len() && seq![tip][k] == oid;
        assert(seq![tip][k] == tip);
    } else if reached(odb, seq![tip], oid, (n - 1) as nat) {
        lemma_ranks(odb, tip, oid, (n - 1) as nat, rank);
    } else {
        let child = choose|child: Seq<u8>| #[trigger]
            parents_of(odb, child).contains(oid) && reached(odb, seq![tip], child, (n - 1) as nat);
        lemma_ranks(odb, tip, child, (n - 1) as nat, rank);
        assert(reachable(odb, seq![tip], child));
    }
}

// --- the log --------------------------------------------------------------------------------------------

/// A log of commits is that of the first ones and that of the others after it.
pub proof fn logs_go_on_commit_by_commit<O: Odb>(
    odb: &O,
    first: Seq<Seq<u8>>,
    more: Seq<Seq<u8>>,
    format: Format,
)
    ensures
        entries_text(odb, first + more, format) == entries_text(odb, first, format) + entries_text(
            odb,
            more,
            format,
        ),
    decreases more.len(),
{
    let all = first + more;
    if more.len() == 0 {
        assert(all =~= first);
        assert(entries_text(odb, first, format) + entries_text(odb, more, format) =~= entries_text(
            odb,
            first,
            format,
        ));
    } else {
        assert(all.drop_last() =~= first + more.drop_last());
        assert(all.last() == more.last());
        logs_go_on_commit_by_commit(odb, first, more.drop_last(), format);
        assert(entries_text(odb, all, format) =~= entries_text(odb, first, format) + entries_text(
            odb,
            more,
            format,
        ));
    }
}

/// Text lines behind four spaces, the first one first.
pub open spec fn indented(lines: Seq<Seq<char>>) -> Seq<char>
    decreases lines.len(),
{
    if lines.len() == 0 {
        Seq::empty()
    } else {
        seq![' ', ' ', ' ', ' '] + lines[0] + seq!['\n'] + indented(lines.skip(1))
    }
}

proof fn lemma_indented(lines: Seq<Seq<char>>)
    ensures
        message_text(lines) == indented(lines),
    decreases lines.len(),
{
    reveal_strlit("    ");
    reveal_strlit("\n");
    if lines.len() > 0 {
        lemma_indented(lines.drop_last());
        lemma_indented_last(lines);
        assert("    "@ =~= seq![' ', ' ', ' ', ' ']);
        assert("\n"@ =~= seq!['\n']);
        let end = seq![' ', ' ', ' ', ' '] + lines.last() + seq!['\n'];
        assert("    "@ + lines.last() + "\n"@ =~= end);
    }
}

proof fn lemma_indented_last(lines: Seq<Seq<char>>)
    requires
        lines.len() > 0,
    ensures
        indented(lines) == indented(lines.drop_last()) + (seq![' ', ' ', ' ', ' '] + lines.last()
            + seq!['\n']),
    decreases lines.len(),
{
    let end = seq![' ', ' ', ' ', ' '] + lines.last() + seq!['\n'];
    if lines.len() == 1 {
        assert(lines.drop_last() =~= Seq::<Seq<char>>::empty());
        assert(indented(lines.drop_last()) =~= Seq::<char>::empty());
        assert(lines.skip(1) =~= Seq::<Seq<char>>::empty());
        assert(indented(lines.skip(1)) =~= Seq::<char>::empty());
        assert(indented(lines) =~= end);
        assert(indented(lines.drop_last()) + end =~= end);
    } else {
        let rest = lines.skip(1);
        lemma_indented_last(rest);
        assert(rest.drop_last() =~= lines.drop_last().skip(1));
        assert(lines.drop_last()[0] == lines[0]);
        assert(rest.last() == lines.last());
        let first = seq![' ', ' ', ' ', ' '] + lines[0] + seq!['\n'];
        assert(indented(lines) == first + indented(rest));
        assert(indented(lines.drop_last()) == first + indented(lines.drop_last().skip(1)));
        assert(indented(lines) =~= indented(lines.drop_last()) + end);
    }
}

/// A commit is shown by its id, by its id and its subject, or with its author, the author's date and
/// all lines of its message.
pub proof fn commits_are_shown_by_their_contents(oid: Seq<u8>, c: CommitView)
    ensures
        entry_text(oid, c, Format::Oid) == hex_text(oid) + seq!['\n'],
        entry_text(oid, c, Format::Oneline) == hex_text(oid) + seq![' '] + readable_text(
            subject_of(c.message),
        ) + seq!['\n'],
        entry_text(oid, c, Format::Full) == "commit "@ + hex_text(oid) + seq!['\n'] + "Author: "@
            + readable_text(c.author.name) + " <"@ + readable_text(c.author.email) + seq!['>', '\n']
            + "Date:   "@ + signed_text(c.author.time) + seq![' '] + readable_text(c.author.tz) + seq![
            '\n',
            '\n',
        ] + indented(readable_lines(c.message)),
{
    reveal_strlit("\n");
    reveal_strlit(" ");
    reveal_strlit("\nAuthor: ");
    reveal_strlit("Author: ");
    reveal_strlit(">\nDate:   ");
    reveal_strlit("Date:   ");
    reveal_strlit("\n\n");
    lemma_indented(readable_lines(c.message));
    assert("\n"@ =~= seq!['\n']);
    assert(" "@ =~= seq![' ']);
    assert("\nAuthor: "@ =~= seq!['\n'] + "Author: "@);
    assert(">\nDate:   "@ =~= seq!['>', '\n'] + "Date:   "@);
    assert("\n\n"@ =~= seq!['\n', '\n']);
    let (h, n, e) = (hex_text(oid), readable_text(c.author.name), readable_text(c.author.email));
    let (t, z) = (signed_text(c.author.time), readable_text(c.author.tz));
    let body = indented(readable_lines(c.message));
    lemma_pieces(
        "commit "@ + h,
        seq!['\n'],
        "Author: "@,
        n + " <"@ + e,
        seq!['>', '\n'],
        "Date:   "@,
        t,
        z,
        body,
        n,
        " <"@,
        e,
    );
}

/// Pieces that are put together in two ways.
proof fn lemma_pieces(
    a: Seq<char>,
    b: Seq<char>,
    c: Seq<char>,
    middle: Seq<char>,
    d: Seq<char>,
    e: Seq<char>,
    t: Seq<char>,
    z: Seq<char>,
    body: Seq<char>,
    n: Seq<char>,
    m: Seq<char>,
    o: Seq<char>,
)
    requires
        middle == n + m + o,
    ensures
        a + (b + c) + n + m + o + (d + e) + t + seq![' '] + z + seq!['\n', '\n'] + body == a + b + c + n + m + o
            + d + e + t + seq![' '] + z + seq!['\n', '\n'] + body,
{
    assert(a + (b + c) =~= a + b + c);
    let s = a + b + c + n + m + o;
    assert(s + (d + e) =~= s + d + e);
}

/// Lines of bytes with newlines between them.
pub open spec fn with_newlines(lines: Seq<Seq<u8>>) -> Seq<u8>
    decreases lines.len(),
{
    if lines.len() == 0 {
        Seq::empty()
    } else if lines.len() == 1 {
        lines[0]
    } else {
        lines[0] + seq![10u8] + with_newlines(lines.skip(1))
    }
}

/// The lines of a message make it up again, and there is no newline in them.
pub proof fn messages_are_made_of_their_lines(message: Seq<u8>)
    ensures
        ({
            let lines = split(message, 10);
            &&& lines.len() > 0
            &&& with_newlines(lines) == message
            &&& forall|i: int| 0 <= i < lines.len() ==> !(#[trigger] lines[i]).contains(10)
            &&& readable_lines(message) == lines.map_values(|l: Seq<u8>| readable_text(l))
        }),
    decreases message.len(),
{
    let lines = split(message, 10);
    lemma_find(message, 10);
    match find(message, 10) {
        None => {
            assert(lines =~= seq![message]);
            assert forall|i: int| 0 <= i < lines.len() implies !(#[trigger] lines[i]).contains(10) by {
                assert(lines[i] == message);
            }
        },
        Some(k) => {
            let rest = message.skip(k + 1);
            messages_are_made_of_their_lines(rest);
            let more = split(rest, 10);
            let line = message.take(k);
            assert(lines =~= seq![line] + more);
            assert(lines.skip(1) =~= more);
            assert(message =~= line + seq![10u8] + rest);
            assert forall|i: int| 0 <= i < lines.len() implies !(#[trigger] lines[i]).contains(10) by {
                if i > 0 {
                    assert(lines[i] == more[i - 1]);
                } else {
                    assert forall|j: int| 0 <= j < line.len() implies line[j] != 10 by {
                        assert(line[j] == message[j]);
                    }
                }
            }
        },
    }
}

// --- refs and results -----------------------------------------------------------------------------------

/// A list of refs is that of the first ones and that of the others after it; each has a line with its
/// id and its name.
pub proof fn refs_are_listed_line_by_line(
    first: Seq<(Seq<u8>, Seq<u8>)>,
    more: Seq<(Seq<u8>, Seq<u8>)>,
    name: Seq<u8>,
    oid: Seq<u8>,
)
    ensures
        refs_text(first + more) == refs_text(first) + refs_text(more),
        refs_text(seq![(name, oid)]) == hex_text(oid) + seq![' '] + readable_text(name) + seq!['\n'],
    decreases more.len(),
{
    let all = first + more;
    if more.len() == 0 {
        assert(all =~= first);
        assert(refs_text(first) + refs_text(more) =~= refs_text(first));
    } else {
        assert(all.drop_last() =~= first + more.drop_last());
        assert(all.last() == more.last());
        refs_are_listed_line_by_line(first, more.drop_last(), name, oid);
        assert(refs_text(all) =~= refs_text(first) + refs_text(more));
    }
    reveal_strlit(" ");
    reveal_strlit("\n");
    assert(" "@ =~= seq![' ']);
    assert("\n"@ =~= seq!['\n']);
    let one = seq![(name, oid)];
    assert(one.drop_last() =~= Seq::<(Seq<u8>, Seq<u8>)>::empty());
    assert(refs_text(one.drop_last()) =~= Seq::<char>::empty());
    assert(refs_text(one) =~= ref_line(oid, readable_text(name)));
}

/// The results of a push are those of the first refs and those of the others after them; each has a
/// line with its name and `ok` or what went wrong.
pub proof fn results_are_listed_line_by_line(
    first: Seq<ResultView>,
    more: Seq<ResultView>,
    name: Seq<u8>,
    reason: Seq<u8>,
)
    ensures
        result_lines(first + more) == result_lines(first) + result_lines(more),
        result_lines(seq![(name, None)]) == readable_text(name) + ": ok\n"@,
        result_lines(seq![(name, Some(reason))]) == readable_text(name) + ": "@ + readable_text(reason)
            + "\n"@,
    decreases more.len(),
{
    let all = first + more;
    if more.len() == 0 {
        assert(all =~= first);
        assert(result_lines(first) + result_lines(more) =~= result_lines(first));
    } else {
        assert(all.drop_last() =~= first + more.drop_last());
        assert(all.last() == more.last());
        results_are_listed_line_by_line(first, more.drop_last(), name, reason);
        assert(result_lines(all) =~= result_lines(first) + result_lines(more));
    }
    reveal_strlit(": ok\n");
    reveal_strlit(": ");
    reveal_strlit("ok");
    reveal_strlit("\n");
    let good: Seq<ResultView> = seq![(name, None)];
    let bad: Seq<ResultView> = seq![(name, Some(reason))];
    assert(good.drop_last() =~= Seq::<ResultView>::empty());
    assert(bad.drop_last() =~= Seq::<ResultView>::empty());
    assert(result_lines(good.drop_last()) =~= Seq::<char>::empty());
    assert(result_lines(bad.drop_last()) =~= Seq::<char>::empty());
    assert(result_lines(good) =~= readable_text(name) + ": ok\n"@);
    assert(result_lines(bad) =~= readable_text(name) + ": "@ + readable_text(reason) + "\n"@);
}

/// A push has failed exactly where the pack was not taken in or a ref was not updated.
pub proof fn pushes_fail_with_any_part(report: ReportView)
    ensures
        push_text(None) == Ok::<_, Seq<char>>("up to date\n"@),
        push_text(Some(report)) is Ok <==> report.unpack_ok && forall|i: int|
            0 <= i < report.results.len() ==> (#[trigger] report.results[i]).1 is None,
        push_text(Some(report)) == (if push_text(Some(report)) is Ok {
            Ok::<_, Seq<char>>(result_lines(report.results))
        } else {
            Err("push failed\n"@ + result_lines(report.results))
        }),
{
}

// --- numbers --------------------------------------------------------------------------------------------

/// A block goes to the next multiple of its alignment and no further.
pub proof fn blocks_go_to_the_next_multiple(next: int, align: int)
    requires
        align > 0,
        next >= 0,
    ensures
        aligned(next, align) % align == 0,
        next <= aligned(next, align) < next + align,
{
    vstd::arithmetic::div_mod::lemma_fundamental_div_mod(next, align);
    vstd::arithmetic::div_mod::lemma_mod_bound(next, align);
    if next % align != 0 {
        let q = next / align;
        assert(next + align - next % align == (q + 1) * align) by (nonlinear_arith)
            requires
                next == align * q + next % align,
        ;
        vstd::arithmetic::div_mod::lemma_mod_multiples_basic(q + 1, align);
    }
}

/// A length is given by its four bytes, the least significant first.
pub proof fn lengths_are_their_bytes(n: int)
    requires
        0 <= n < 0x1_0000_0000,
    ensures
        le32(n).len() == 4,
        le32(n)[0] + 256 * le32(n)[1] + 65536 * le32(n)[2] + 16777216 * le32(n)[3] == n,
{
}

// --- small machines ---------------------------------------------------------------------------------------

/// Where no commit is its own ancestor, the count of a bundle is that of all commits that its refs
/// lead to, as far as the number can be given.
pub proof fn counts_are_of_all_commits<O: Odb>(
    odb: &O,
    refs: Seq<(Seq<u8>, Seq<u8>)>,
    tips: Seq<Seq<u8>>,
    rank: spec_fn(Seq<u8>) -> nat,
)
    requires
        starts(odb, refs, None) == Ok::<_, StartError>(tips),
        unbroken(odb, tips),
        reachable_set(odb, tips).finite(),
        forall|x: Seq<u8>, p: Seq<u8>|
            reachable(odb, tips, x) && #[trigger] parents_of(odb, x).contains(p) ==> rank(p) < rank(x),
    ensures
        ({
            let n = reachable_set(odb, tips).len();
            count_of(odb, refs) == if n <= i32::MAX {
                n as int
            } else {
                i32::MAX as int
            }
        }),
{
    let set = reachable_set(odb, tips);
    assert forall|x: Seq<u8>, p: Seq<u8>|
        set.contains(x) && #[trigger] parents_of(odb, x).contains(p) implies rank(p) < rank(x) by {
        assert(reachable(odb, tips, x));
    }
    every_commit_is_listed(odb, set, rank);
}

/// A subject that is cut off is the start of the first line of the message, with as many bytes as may
/// be shown or all of them.
pub proof fn subjects_are_cut_at_the_limit<O: Odb>(odb: &O, oid: Seq<u8>, limit: nat)
    ensures
        ({
            let line = subject_of(commit_at(odb, oid).message);
            let shown = cut_subject(odb, oid, limit);
            &&& shown.is_prefix_of(line)
            &&& shown.len() <= limit
            &&& shown.len() < line.len() ==> shown.len() == limit
        }),
{
}

/// The subject of a bundle is that of the commit which its first ref leads to, where no commit is its
/// own ancestor and none in its history is broken.
pub proof fn the_subject_is_that_of_the_first_ref<O: Odb>(
    odb: &O,
    refs: Seq<(Seq<u8>, Seq<u8>)>,
    tip: Seq<u8>,
    limit: nat,
    rank: spec_fn(Seq<u8>) -> nat,
)
    requires
        refs.len() > 0,
        peeled(odb, refs[0].1, 16) == Ok::<_, Error>(tip),
        commit_in(odb, tip) is Some,
        unbroken(odb, seq![tip]),
        forall|x: Seq<u8>, p: Seq<u8>|
            reachable(odb, seq![tip], x) && #[trigger] parents_of(odb, x).contains(p) ==> rank(p) < rank(x),
    ensures
        subject_in(odb, refs, limit) == Ok::<_, Failure>(cut_subject(odb, tip, limit)),
{
    histories_begin_where_they_start(odb, tip, 1, rank);
}

/// A value goes under the lowest number that is free.
pub proof fn the_lowest_free_number_is_taken<T>(items: Seq<Option<T>>, i: int, k: int)
    requires
        0 <= i <= k < free_from(items, i),
    ensures
        k < items.len() && items[k] is Some,
    decreases items.len() - i,
{
    if i < items.len() && items[i] is Some {
        if k > i {
            the_lowest_free_number_is_taken(items, i + 1, k);
        }
    }
}

} // verus!
