//! The command line from the side of the one who types it.

use vstd::prelude::*;

use crate::cli::{
    bundle_name, clone_args, command_of, log_args, push_args, CloneArgs, CommandView, Format, LogArgs, PushArgs,
};
use crate::text::{decimal_text, lemma_cut_last, lemma_decimal_text, number_in, without_end};

verus! {

proof fn lemma_number(n: nat, max: nat)
    requires
        n <= max,
    ensures
        number_in(decimal_text(n), 10, max) == Some(n),
{
    lemma_decimal_text(n);
    assert('0' <= decimal_text(n)[0] <= '9');
}

// --- clone --------------------------------------------------------------------------------------------

/// An option of a clone.
pub enum CloneOption {
    Output(Seq<char>),
    Depth(nat),
    Ref(Seq<char>),
}

pub open spec fn clone_words(o: CloneOption) -> Seq<Seq<char>> {
    match o {
        CloneOption::Output(path) => seq!["-o"@, path],
        CloneOption::Depth(n) => seq!["--depth"@, decimal_text(n)],
        CloneOption::Ref(name) => seq!["--ref"@, name],
    }
}

/// All options one after the other.
pub open spec fn all_clone_words(list: Seq<CloneOption>) -> Seq<Seq<char>>
    decreases list.len(),
{
    if list.len() == 0 {
        Seq::empty()
    } else {
        clone_words(list[0]) + all_clone_words(list.skip(1))
    }
}

/// What is asked for: of each option the last.
pub open spec fn clone_asked(list: Seq<CloneOption>) -> CloneArgs
    decreases list.len(),
{
    if list.len() == 0 {
        CloneArgs { output: None, depth: None, want_ref: None }
    } else {
        let a = clone_asked(list.drop_last());
        match list.last() {
            CloneOption::Output(path) => CloneArgs { output: Some(path), ..a },
            CloneOption::Depth(n) => CloneArgs { depth: Some(n), ..a },
            CloneOption::Ref(name) => CloneArgs { want_ref: Some(name), ..a },
        }
    }
}

proof fn lemma_clone(list: Seq<CloneOption>, k: int)
    requires
        0 <= k <= list.len(),
        forall|i: int|
            0 <= i < list.len() ==> ((#[trigger] list[i]) matches CloneOption::Depth(n) ==> n <= u32::MAX),
    ensures
        clone_args(clone_asked(list.take(k)), all_clone_words(list.skip(k))) == Some(clone_asked(list)),
    decreases list.len() - k,
{
    if k == list.len() {
        assert(list.take(k) =~= list);
        assert(all_clone_words(list.skip(k)).len() == 0);
    } else {
        let words = all_clone_words(list.skip(k));
        let o = list[k];
        assert(list.skip(k)[0] == o);
        assert(list.skip(k).skip(1) =~= list.skip(k + 1));
        assert(words.skip(2) =~= all_clone_words(list.skip(k + 1)));
        assert(words[0] == clone_words(o)[0] && words[1] == clone_words(o)[1]);
        assert(list.take(k + 1).drop_last() =~= list.take(k));
        assert(list.take(k + 1).last() == o);
        reveal_strlit("-o");
        reveal_strlit("--depth");
        reveal_strlit("--ref");
        assert("-o"@.len() == 2 && "--depth"@.len() == 7 && "--ref"@.len() == 5);
        if let CloneOption::Depth(n) = o {
            lemma_number(n, u32::MAX as nat);
        }
        lemma_clone(list, k + 1);
    }
}

// --- push ---------------------------------------------------------------------------------------------

/// An option of a push.
pub enum PushOption {
    From(Seq<char>),
    To(Seq<char>),
}

pub open spec fn push_words(o: PushOption) -> Seq<Seq<char>> {
    match o {
        PushOption::From(name) => seq!["--ref"@, name],
        PushOption::To(name) => seq!["--to"@, name],
    }
}

pub open spec fn all_push_words(list: Seq<PushOption>) -> Seq<Seq<char>>
    decreases list.len(),
{
    if list.len() == 0 {
        Seq::empty()
    } else {
        push_words(list[0]) + all_push_words(list.skip(1))
    }
}

pub open spec fn push_asked(list: Seq<PushOption>) -> PushArgs
    decreases list.len(),
{
    if list.len() == 0 {
        PushArgs { from: None, to: None }
    } else {
        let a = push_asked(list.drop_last());
        match list.last() {
            PushOption::From(name) => PushArgs { from: Some(name), ..a },
            PushOption::To(name) => PushArgs { to: Some(name), ..a },
        }
    }
}

proof fn lemma_push(list: Seq<PushOption>, k: int)
    requires
        0 <= k <= list.len(),
    ensures
        push_args(push_asked(list.take(k)), all_push_words(list.skip(k))) == Some(push_asked(list)),
    decreases list.len() - k,
{
    if k == list.len() {
        assert(list.take(k) =~= list);
        assert(all_push_words(list.skip(k)).len() == 0);
    } else {
        let words = all_push_words(list.skip(k));
        let o = list[k];
        assert(list.skip(k)[0] == o);
        assert(list.skip(k).skip(1) =~= list.skip(k + 1));
        assert(words.skip(2) =~= all_push_words(list.skip(k + 1)));
        assert(words[0] == push_words(o)[0] && words[1] == push_words(o)[1]);
        assert(list.take(k + 1).drop_last() =~= list.take(k));
        assert(list.take(k + 1).last() == o);
        reveal_strlit("--ref");
        reveal_strlit("--to");
        assert("--ref"@.len() == 5 && "--to"@.len() == 4);
        lemma_push(list, k + 1);
    }
}

// --- log ----------------------------------------------------------------------------------------------

/// An option of a log.
pub enum LogOption {
    Ref(Seq<char>),
    Limit(nat),
    Shown(Format),
}

pub open spec fn log_words(o: LogOption) -> Seq<Seq<char>> {
    match o {
        LogOption::Ref(name) => seq!["--ref"@, name],
        LogOption::Limit(n) => seq!["-n"@, decimal_text(n)],
        LogOption::Shown(Format::Oid) => seq!["--format"@, "oid"@],
        LogOption::Shown(Format::Oneline) => seq!["--format"@, "oneline"@],
        LogOption::Shown(Format::Full) => seq!["--format"@, "full"@],
    }
}

pub open spec fn all_log_words(list: Seq<LogOption>) -> Seq<Seq<char>>
    decreases list.len(),
{
    if list.len() == 0 {
        Seq::empty()
    } else {
        log_words(list[0]) + all_log_words(list.skip(1))
    }
}

/// What is asked for: of each option the last; without them all commits, one on a line.
pub open spec fn log_asked(list: Seq<LogOption>) -> LogArgs
    decreases list.len(),
{
    if list.len() == 0 {
        LogArgs { start: None, limit: usize::MAX as nat, format: Format::Oneline }
    } else {
        let a = log_asked(list.drop_last());
        match list.last() {
            LogOption::Ref(name) => LogArgs { start: Some(name), ..a },
            LogOption::Limit(n) => LogArgs { limit: n, ..a },
            LogOption::Shown(format) => LogArgs { format, ..a },
        }
    }
}

proof fn lemma_log(list: Seq<LogOption>, k: int)
    requires
        0 <= k <= list.len(),
        forall|i: int|
            0 <= i < list.len() ==> ((#[trigger] list[i]) matches LogOption::Limit(n) ==> n <= usize::MAX),
    ensures
        log_args(log_asked(list.take(k)), all_log_words(list.skip(k))) == Some(log_asked(list)),
    decreases list.len() - k,
{
    if k == list.len() {
        assert(list.take(k) =~= list);
        assert(all_log_words(list.skip(k)).len() == 0);
    } else {
        let words = all_log_words(list.skip(k));
        let o = list[k];
        assert(list.skip(k)[0] == o);
        assert(list.skip(k).skip(1) =~= list.skip(k + 1));
        assert(words.skip(2) =~= all_log_words(list.skip(k + 1)));
        assert(words[0] == log_words(o)[0] && words[1] == log_words(o)[1]);
        assert(list.take(k + 1).drop_last() =~= list.take(k));
        assert(list.take(k + 1).last() == o);
        reveal_strlit("--ref");
        reveal_strlit("-n");
        reveal_strlit("--format");
        reveal_strlit("oid");
        reveal_strlit("oneline");
        reveal_strlit("full");
        assert("--ref"@.len() == 5 && "-n"@.len() == 2 && "--format"@.len() == 8);
        assert("oid"@.len() == 3 && "oneline"@.len() == 7 && "full"@.len() == 4);
        if let LogOption::Limit(n) = o {
            lemma_number(n, usize::MAX as nat);
        }
        lemma_log(list, k + 1);
    }
}

// --- commands -----------------------------------------------------------------------------------------

proof fn lemma_words()
    ensures
        "clone"@.len() == 5 && "clone"@[0] == 'c',
        "push"@.len() == 4 && "push"@[0] == 'p',
        "checkout"@.len() == 8,
        "refs"@.len() == 4 && "refs"@[0] == 'r',
        "log"@.len() == 3,
        "cat-file"@.len() == 8 && "cat-file"@[1] != "checkout"@[1],
{
    reveal_strlit("clone");
    reveal_strlit("push");
    reveal_strlit("checkout");
    reveal_strlit("refs");
    reveal_strlit("log");
    reveal_strlit("cat-file");
}

/// Arguments ask for what was typed: a clone, a push or a log with any options in any order, or one
/// of the commands without options.
pub proof fn arguments_ask_for_what_was_typed(
    a: Seq<char>,
    b: Seq<char>,
    c: Seq<char>,
    cloning: Seq<CloneOption>,
    pushing: Seq<PushOption>,
    logging: Seq<LogOption>,
)
    requires
        forall|i: int|
            0 <= i < cloning.len() ==> ((#[trigger] cloning[i]) matches CloneOption::Depth(n) ==> n <= u32::MAX),
        forall|i: int|
            0 <= i < logging.len() ==> ((#[trigger] logging[i]) matches LogOption::Limit(n) ==> n <= usize::MAX),
    ensures
        command_of(seq!["clone"@, a] + all_clone_words(cloning)) == Some(
            CommandView::Clone { url: a, args: clone_asked(cloning) },
        ),
        command_of(seq!["push"@, a, b] + all_push_words(pushing)) == Some(
            CommandView::Push { url: a, bundle: b, args: push_asked(pushing) },
        ),
        command_of(seq!["log"@, a] + all_log_words(logging)) == Some(
            CommandView::Log { bundle: a, args: log_asked(logging) },
        ),
        command_of(seq!["checkout"@, a, b, "-o"@, c]) == Some(
            CommandView::Checkout { bundle: a, name: b, output: c },
        ),
        command_of(seq!["refs"@, a]) == Some(CommandView::Refs { bundle: a }),
        command_of(seq!["cat-file"@, a, b]) == Some(CommandView::CatFile { bundle: a, oid: b }),
{
    lemma_words();
    let clone_line = seq!["clone"@, a] + all_clone_words(cloning);
    assert(clone_line.skip(2) =~= all_clone_words(cloning));
    assert(cloning.take(0) =~= Seq::<CloneOption>::empty());
    assert(cloning.skip(0) =~= cloning);
    lemma_clone(cloning, 0);
    let push_line = seq!["push"@, a, b] + all_push_words(pushing);
    assert(push_line.skip(3) =~= all_push_words(pushing));
    assert(pushing.take(0) =~= Seq::<PushOption>::empty());
    assert(pushing.skip(0) =~= pushing);
    lemma_push(pushing, 0);
    let log_line = seq!["log"@, a] + all_log_words(logging);
    assert(log_line.skip(2) =~= all_log_words(logging));
    assert(logging.take(0) =~= Seq::<LogOption>::empty());
    assert(logging.skip(0) =~= logging);
    lemma_log(logging, 0);
}

// --- names of bundles ---------------------------------------------------------------------------------

/// A number of slashes.
pub open spec fn slashes(n: nat) -> Seq<char> {
    Seq::new(n, |i: int| '/')
}

proof fn lemma_slashes(s: Seq<char>, n: nat)
    requires
        s.len() > 0,
        s.last() != '/',
    ensures
        without_end(s + slashes(n), '/') == s,
    decreases n,
{
    let all = s + slashes(n);
    if n == 0 {
        assert(all =~= s);
    } else {
        assert(all.drop_last() =~= s + slashes((n - 1) as nat));
        assert(all.last() == '/');
        lemma_slashes(s, (n - 1) as nat);
    }
}

/// The bundle of a repository has the name of its last directory, without `.git` and whatever slashes
/// the address ends with.
pub proof fn bundles_are_named_after_repositories(address: Seq<char>, name: Seq<char>, n: nat)
    requires
        name.len() > 0,
        !name.contains('/'),
    ensures
        bundle_name(address + seq!['/'] + name + ".git"@ + slashes(n)) == name + ".bundle"@,
        !(name.len() >= 4 && name.skip(name.len() - 4) == ".git"@) ==> bundle_name(
            address + seq!['/'] + name + slashes(n),
        ) == name + ".bundle"@,
        bundle_name(address + seq!['/'] + ".git"@ + slashes(n)) == "repo"@ + ".bundle"@,
{
    reveal_strlit(".git");
    let base = address.push('/');
    let dotted = name + ".git"@;
    assert(address + seq!['/'] + name + ".git"@ =~= base + dotted);
    assert(address + seq!['/'] + name =~= base + name);
    assert(address + seq!['/'] + ".git"@ =~= base + ".git"@);
    assert(!dotted.contains('/')) by {
        assert forall|i: int| 0 <= i < dotted.len() implies dotted[i] != '/' by {
            if i < name.len() {
                assert(name.contains(name[i]));
            }
        }
    }
    assert(name.contains(name.last()));
    assert(!".git"@.contains('/'));
    lemma_cut_last(address, '/', dotted);
    lemma_cut_last(address, '/', name);
    lemma_cut_last(address, '/', ".git"@);
    assert((base + dotted).last() == 't');
    assert((base + name).last() == name.last());
    assert((base + ".git"@).last() == 't');
    lemma_slashes(base + dotted, n);
    lemma_slashes(base + name, n);
    lemma_slashes(base + ".git"@, n);
    assert(dotted.skip(dotted.len() - 4) =~= ".git"@);
    assert(dotted.take(dotted.len() - 4) =~= name);
    let bare = ".git"@;
    assert(bare.skip(bare.len() - 4) =~= ".git"@);
    assert(bare.take(bare.len() - 4) =~= Seq::<char>::empty());
}

} // verus!
