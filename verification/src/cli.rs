//! The commands of the command line: what the arguments ask for and what is printed.

use vstd::prelude::*;
use vstd::utf8::encode_utf8;

use crate::bundle::{ref_list, ref_named, Bundle};
use crate::bytes::{fields, split, views};
use crate::err::Result;
use crate::history::{peel, peeled, WalkedCommit};
use crate::log::{
    commit_at, lemma_listing_end, lemma_listing_start, listed, listing, next_listed, not_found_text,
    ref_not_found, start, starts, subject, subject_of, StartError,
};
use crate::object::{commit_view, parse_commit, CommitView};
use crate::oid::{from_hex, hex_text, Oid};
use crate::pack::object_in;
use crate::protov0::{result_views, succeeded, PushReport, ReportView, ResultView};
use crate::text::{
    chars_from, chars_of, chars_to, cut_last, decimal_text, is_text, last_of, number_in, parse_number,
    push_chars, push_number, push_oid, push_signed, readable, readable_text, signed_text, trim_end,
    without_end,
};
use crate::Odb;

verus! {

/// What is printed for arguments that make no sense.
pub const USAGE: &'static str = "usage:
  tig clone <url> [options]             clone over smart HTTP into a bundle
    -o <file>      output bundle path (default: <repo>.bundle)
    --depth <n>    shallow clone depth
    --ref <name>   fetch a single ref (e.g. refs/heads/main)
  tig push <url> <bundle> [options]     push refs of a bundle over smart HTTP
    --ref <name>   push a single ref (default: all refs below refs/)
    --to <name>    name of the ref on the server (default: the same)
  tig checkout <bundle> <ref> -o <dir>  write out the files of a ref
  tig refs <bundle>                     list refs
  tig log <bundle> [options]            show history in committer date order
    --ref <name>   start point ref (default: all refs)
    -n <count>     limit the number of commits shown
    --format <f>   oid | oneline (default) | full
  tig cat-file <bundle> <oid>           print object content";

// --- arguments ---------------------------------------------------------------------------------------------

/// How a commit is shown.
#[derive(Debug, Clone, Copy, PartialEq, Eq, Structural)]
pub enum Format {
    Oid,
    Oneline,
    Full,
}

/// What the arguments ask for.
pub enum Command {
    Clone { url: String, output: Option<String>, depth: Option<u32>, want_ref: Option<String> },
    Push { url: String, bundle: String, from: Option<String>, to: Option<String> },
    Checkout { bundle: String, name: String, output: String },
    Refs { bundle: String },
    Log { bundle: String, start: Option<String>, limit: usize, format: Format },
    CatFile { bundle: String, oid: String },
}

/// What follows the address in the arguments of a clone.
pub struct CloneArgs {
    pub output: Option<Seq<char>>,
    pub depth: Option<nat>,
    pub want_ref: Option<Seq<char>>,
}

/// What follows the bundle in the arguments of a push.
pub struct PushArgs {
    pub from: Option<Seq<char>>,
    pub to: Option<Seq<char>>,
}

/// What follows the bundle in the arguments of a log.
pub struct LogArgs {
    pub start: Option<Seq<char>>,
    pub limit: nat,
    pub format: Format,
}

#[allow(inconsistent_fields)]
pub enum CommandView {
    Clone { url: Seq<char>, args: CloneArgs },
    Push { url: Seq<char>, bundle: Seq<char>, args: PushArgs },
    Checkout { bundle: Seq<char>, name: Seq<char>, output: Seq<char> },
    Refs { bundle: Seq<char> },
    Log { bundle: Seq<char>, args: LogArgs },
    CatFile { bundle: Seq<char>, oid: Seq<char> },
}

pub open spec fn opt_text(s: Option<String>) -> Option<Seq<char>> {
    match s {
        Some(s) => Some(s@),
        None => None,
    }
}

impl View for Command {
    type V = CommandView;

    open spec fn view(&self) -> CommandView {
        match *self {
            Command::Clone { url, output, depth, want_ref } => CommandView::Clone {
                url: url@,
                args: CloneArgs {
                    output: opt_text(output),
                    depth: match depth {
                        Some(n) => Some(n as nat),
                        None => None,
                    },
                    want_ref: opt_text(want_ref),
                },
            },
            Command::Push { url, bundle, from, to } => CommandView::Push {
                url: url@,
                bundle: bundle@,
                args: PushArgs { from: opt_text(from), to: opt_text(to) },
            },
            Command::Checkout { bundle, name, output } => CommandView::Checkout {
                bundle: bundle@,
                name: name@,
                output: output@,
            },
            Command::Refs { bundle } => CommandView::Refs { bundle: bundle@ },
            Command::Log { bundle, start, limit, format } => CommandView::Log {
                bundle: bundle@,
                args: LogArgs { start: opt_text(start), limit: limit as nat, format },
            },
            Command::CatFile { bundle, oid } => CommandView::CatFile { bundle: bundle@, oid: oid@ },
        }
    }
}

/// The options of a clone, each with its value. Of an option that comes again the last counts.
pub open spec fn clone_args(a: CloneArgs, rest: Seq<Seq<char>>) -> Option<CloneArgs>
    decreases rest.len(),
{
    if rest.len() == 0 {
        Some(a)
    } else if rest.len() == 1 {
        None
    } else {
        let (flag, value, next) = (rest[0], rest[1], rest.skip(2));
        if flag == "-o"@ {
            clone_args(CloneArgs { output: Some(value), ..a }, next)
        } else if flag == "--depth"@ {
            match number_in(value, 10, u32::MAX as nat) {
                Some(n) => clone_args(CloneArgs { depth: Some(n), ..a }, next),
                None => None,
            }
        } else if flag == "--ref"@ {
            clone_args(CloneArgs { want_ref: Some(value), ..a }, next)
        } else {
            None
        }
    }
}

/// The options of a push, each with its value.
pub open spec fn push_args(a: PushArgs, rest: Seq<Seq<char>>) -> Option<PushArgs>
    decreases rest.len(),
{
    if rest.len() == 0 {
        Some(a)
    } else if rest.len() == 1 {
        None
    } else {
        let (flag, value, next) = (rest[0], rest[1], rest.skip(2));
        if flag == "--ref"@ {
            push_args(PushArgs { from: Some(value), ..a }, next)
        } else if flag == "--to"@ {
            push_args(PushArgs { to: Some(value), ..a }, next)
        } else {
            None
        }
    }
}

pub open spec fn format_of(s: Seq<char>) -> Option<Format> {
    if s == "oid"@ {
        Some(Format::Oid)
    } else if s == "oneline"@ {
        Some(Format::Oneline)
    } else if s == "full"@ {
        Some(Format::Full)
    } else {
        None
    }
}

/// The options of a log, each with its value.
pub open spec fn log_args(a: LogArgs, rest: Seq<Seq<char>>) -> Option<LogArgs>
    decreases rest.len(),
{
    if rest.len() == 0 {
        Some(a)
    } else if rest.len() == 1 {
        None
    } else {
        let (flag, value, next) = (rest[0], rest[1], rest.skip(2));
        if flag == "--ref"@ {
            log_args(LogArgs { start: Some(value), ..a }, next)
        } else if flag == "-n"@ {
            match number_in(value, 10, usize::MAX as nat) {
                Some(n) => log_args(LogArgs { limit: n, ..a }, next),
                None => None,
            }
        } else if flag == "--format"@ {
            match format_of(value) {
                Some(f) => log_args(LogArgs { format: f, ..a }, next),
                None => None,
            }
        } else {
            None
        }
    }
}

/// What arguments ask for; `None` where they make no sense.
pub open spec fn command_of(args: Seq<Seq<char>>) -> Option<CommandView> {
    if args.len() == 0 {
        None
    } else if args[0] == "clone"@ {
        if args.len() == 1 {
            None
        } else {
            match clone_args(CloneArgs { output: None, depth: None, want_ref: None }, args.skip(2)) {
                Some(a) => Some(CommandView::Clone { url: args[1], args: a }),
                None => None,
            }
        }
    } else if args[0] == "push"@ {
        if args.len() < 3 {
            None
        } else {
            match push_args(PushArgs { from: None, to: None }, args.skip(3)) {
                Some(a) => Some(CommandView::Push { url: args[1], bundle: args[2], args: a }),
                None => None,
            }
        }
    } else if args[0] == "checkout"@ {
        if args.len() == 5 && args[3] == "-o"@ {
            Some(CommandView::Checkout { bundle: args[1], name: args[2], output: args[4] })
        } else {
            None
        }
    } else if args[0] == "refs"@ {
        if args.len() == 2 {
            Some(CommandView::Refs { bundle: args[1] })
        } else {
            None
        }
    } else if args[0] == "log"@ {
        if args.len() == 1 {
            None
        } else {
            match log_args(
                LogArgs { start: None, limit: usize::MAX as nat, format: Format::Oneline },
                args.skip(2),
            ) {
                Some(a) => Some(CommandView::Log { bundle: args[1], args: a }),
                None => None,
            }
        }
    } else if args[0] == "cat-file"@ {
        if args.len() == 3 {
            Some(CommandView::CatFile { bundle: args[1], oid: args[2] })
        } else {
            None
        }
    } else {
        None
    }
}

pub open spec fn strings(s: Seq<String>) -> Seq<Seq<char>> {
    s.map_values(|a: String| a@)
}

fn is_word(a: &String, b: &str) -> (r: bool)
    ensures
        r == (a@ == b@),
{
    let list = chars_of(a.as_str());
    is_text(list.as_slice(), b)
}

fn number(a: &String, max: u64) -> (r: Option<u64>)
    ensures
        match r {
            Some(n) => number_in(a@, 10, max as nat) == Some(n as nat) && n <= max,
            None => number_in(a@, 10, max as nat) is None,
        },
{
    let list = chars_of(a.as_str());
    parse_number(list.as_slice(), 10, max)
}

fn parse_clone(args: &[String]) -> (r: Option<Command>)
    requires
        args@.len() >= 2,
    ensures
        match clone_args(CloneArgs { output: None, depth: None, want_ref: None }, strings(args@).skip(2)) {
            Some(a) => r matches Some(c) && c@ == (CommandView::Clone { url: args@[1]@, args: a }),
            None => r is None,
        },
{
    let ghost all = strings(args@);
    let ghost none = CloneArgs { output: None, depth: None, want_ref: None };
    let mut output: Option<String> = None;
    let mut depth: Option<u32> = None;
    let mut want_ref: Option<String> = None;
    let mut i: usize = 2;
    let ghost mut a = none;
    while i < args.len()
        invariant
            2 <= i <= args@.len(),
            all == strings(args@),
            clone_args(none, all.skip(2)) == clone_args(a, all.skip(i as int)),
            none == (CloneArgs { output: None, depth: None, want_ref: None }),
            a.output == opt_text(output),
            a.depth == (match depth {
                Some(n) => Some(n as nat),
                None => None,
            }),
            a.want_ref == opt_text(want_ref),
        decreases args.len() - i,
    {
        let ghost rest = all.skip(i as int);
        assert(rest[0] == args@[i as int]@);
        if args.len() - i < 2 {
            return None;
        }
        assert(rest[1] == args@[i + 1]@);
        assert(rest.skip(2) =~= all.skip(i + 2));
        let flag = &args[i];
        let value = &args[i + 1];
        if is_word(flag, "-o") {
            output = Some(value.clone());
            proof {
                a = CloneArgs { output: Some(value@), ..a };
            }
        } else if is_word(flag, "--depth") {
            match number(value, u32::MAX as u64) {
                Some(n) => {
                    depth = Some(n as u32);
                    proof {
                        a = CloneArgs { depth: Some(n as nat), ..a };
                    }
                },
                None => {
                    return None;
                },
            }
        } else if is_word(flag, "--ref") {
            want_ref = Some(value.clone());
            proof {
                a = CloneArgs { want_ref: Some(value@), ..a };
            }
        } else {
            return None;
        }
        i += 2;
    }
    Some(Command::Clone { url: args[1].clone(), output, depth, want_ref })
}

fn parse_push(args: &[String]) -> (r: Option<Command>)
    requires
        args@.len() >= 3,
    ensures
        match push_args(PushArgs { from: None, to: None }, strings(args@).skip(3)) {
            Some(a) => r matches Some(c) && c@ == (CommandView::Push {
                url: args@[1]@,
                bundle: args@[2]@,
                args: a,
            }),
            None => r is None,
        },
{
    let ghost all = strings(args@);
    let ghost none = PushArgs { from: None, to: None };
    let mut from: Option<String> = None;
    let mut to: Option<String> = None;
    let mut i: usize = 3;
    while i < args.len()
        invariant
            3 <= i <= args@.len(),
            all == strings(args@),
            none == (PushArgs { from: None, to: None }),
            push_args(none, all.skip(3)) == push_args(
                PushArgs { from: opt_text(from), to: opt_text(to) },
                all.skip(i as int),
            ),
        decreases args.len() - i,
    {
        let ghost rest = all.skip(i as int);
        assert(rest[0] == args@[i as int]@);
        if args.len() - i < 2 {
            return None;
        }
        assert(rest[1] == args@[i + 1]@);
        assert(rest.skip(2) =~= all.skip(i + 2));
        if is_word(&args[i], "--ref") {
            from = Some(args[i + 1].clone());
        } else if is_word(&args[i], "--to") {
            to = Some(args[i + 1].clone());
        } else {
            return None;
        }
        i += 2;
    }
    Some(Command::Push { url: args[1].clone(), bundle: args[2].clone(), from, to })
}

fn parse_log(args: &[String]) -> (r: Option<Command>)
    requires
        args@.len() >= 2,
    ensures
        match log_args(
            LogArgs { start: None, limit: usize::MAX as nat, format: Format::Oneline },
            strings(args@).skip(2),
        ) {
            Some(a) => r matches Some(c) && c@ == (CommandView::Log { bundle: args@[1]@, args: a }),
            None => r is None,
        },
{
    let ghost all = strings(args@);
    let ghost none = LogArgs { start: None, limit: usize::MAX as nat, format: Format::Oneline };
    let mut start: Option<String> = None;
    let mut limit: usize = usize::MAX;
    let mut format = Format::Oneline;
    let mut i: usize = 2;
    let ghost mut a = none;
    while i < args.len()
        invariant
            2 <= i <= args@.len(),
            all == strings(args@),
            log_args(none, all.skip(2)) == log_args(a, all.skip(i as int)),
            none == (LogArgs { start: None, limit: usize::MAX as nat, format: Format::Oneline }),
            a == (LogArgs { start: opt_text(start), limit: limit as nat, format }),
        decreases args.len() - i,
    {
        let ghost rest = all.skip(i as int);
        assert(rest[0] == args@[i as int]@);
        if args.len() - i < 2 {
            return None;
        }
        assert(rest[1] == args@[i + 1]@);
        assert(rest.skip(2) =~= all.skip(i + 2));
        let flag = &args[i];
        let value = &args[i + 1];
        if is_word(flag, "--ref") {
            start = Some(value.clone());
        } else if is_word(flag, "-n") {
            match number(value, usize::MAX as u64) {
                Some(n) => {
                    limit = n as usize;
                },
                None => {
                    return None;
                },
            }
        } else if is_word(flag, "--format") {
            if is_word(value, "oid") {
                format = Format::Oid;
            } else if is_word(value, "oneline") {
                format = Format::Oneline;
            } else if is_word(value, "full") {
                format = Format::Full;
            } else {
                return None;
            }
        } else {
            return None;
        }
        proof {
            a = LogArgs { start: opt_text(start), limit: limit as nat, format };
        }
        i += 2;
    }
    Some(Command::Log { bundle: args[1].clone(), start, limit, format })
}

/// Reads the arguments, without the name of the program. Where they make no sense the error is how
/// to use the program.
pub fn parse_args(args: &[String]) -> (r: core::result::Result<Command, String>)
    ensures
        match command_of(strings(args@)) {
            Some(c) => r matches Ok(command) && command@ == c,
            None => r matches Err(e) && e@ == USAGE@,
        },
{
    let ghost all = strings(args@);
    let mut command: Option<Command> = None;
    if args.len() > 0 {
        assert(all[0] == args@[0]@);
        if is_word(&args[0], "clone") {
            if args.len() >= 2 {
                command = parse_clone(args);
            }
        } else if is_word(&args[0], "push") {
            if args.len() >= 3 {
                command = parse_push(args);
            }
        } else if is_word(&args[0], "checkout") {
            if args.len() == 5 && is_word(&args[3], "-o") {
                command = Some(
                    Command::Checkout {
                        bundle: args[1].clone(),
                        name: args[2].clone(),
                        output: args[4].clone(),
                    },
                );
            }
        } else if is_word(&args[0], "refs") {
            if args.len() == 2 {
                command = Some(Command::Refs { bundle: args[1].clone() });
            }
        } else if is_word(&args[0], "log") {
            if args.len() >= 2 {
                command = parse_log(args);
            }
        } else if is_word(&args[0], "cat-file") {
            if args.len() == 3 {
                command = Some(Command::CatFile { bundle: args[1].clone(), oid: args[2].clone() });
            }
        }
    }
    match command {
        Some(c) => Ok(c),
        None => Err(USAGE.to_owned()),
    }
}

// --- refs and objects ----------------------------------------------------------------------------------------

/// One line for each ref: what it points to and its name.
pub open spec fn refs_text(refs: Seq<(Seq<u8>, Seq<u8>)>) -> Seq<char>
    decreases refs.len(),
{
    if refs.len() == 0 {
        Seq::empty()
    } else {
        refs_text(refs.drop_last()) + ref_line(refs.last().1, readable_text(refs.last().0))
    }
}

pub open spec fn ref_line(oid: Seq<u8>, name: Seq<char>) -> Seq<char> {
    hex_text(oid) + " "@ + name + "\n"@
}

/// Appends the line of a ref.
pub fn push_ref(out: &mut String, oid: &Oid, name: &str)
    ensures
        final(out)@ == old(out)@ + ref_line(oid@, name@),
{
    push_oid(out, oid);
    out.append(" ");
    out.append(name);
    out.append("\n");
    assert(out@ =~= old(out)@ + ref_line(oid@, name@));
}

/// The refs of a bundle, one line for each.
pub fn refs(bundle: &Bundle<'_>) -> (r: String)
    ensures
        r@ == refs_text(ref_list(bundle.refs@)),
{
    let ghost all = ref_list(bundle.refs@);
    let mut out = String::new();
    let mut i: usize = 0;
    assert(all.take(0) =~= Seq::<(Seq<u8>, Seq<u8>)>::empty());
    assert(out@ =~= Seq::<char>::empty());
    while i < bundle.refs.len()
        invariant
            i <= bundle.refs@.len(),
            all == ref_list(bundle.refs@),
            out@ == refs_text(all.take(i as int)),
        decreases bundle.refs.len() - i,
    {
        assert(all.take(i + 1).drop_last() =~= all.take(i as int));
        assert(all.take(i + 1).last() == (bundle.refs@[i as int].0@, bundle.refs@[i as int].1@));
        let name = readable(bundle.refs[i].0);
        push_ref(&mut out, &bundle.refs[i].1, name.as_str());
        i += 1;
    }
    assert(all.take(i as int) =~= all);
    out
}

/// The body of the object whose id is given in hexadecimal digits.
pub fn cat_file(bundle: &Bundle<'_>, oid_hex: &str) -> (r: core::result::Result<Vec<u8>, String>)
    ensures
        match from_hex(encode_utf8(oid_hex@)) {
            Err(e) => r matches Err(f) && f@ == e.text(),
            Ok(oid) => match object_in(bundle.pack.data(), bundle.pack.index(), oid) {
                Err(e) => r matches Err(f) && f@ == e.text(),
                Ok(None) => r matches Err(f) && f@ == "object not found: "@ + oid_hex@,
                Ok(Some((_, body))) => r matches Ok(b) && b@ == body,
            },
        },
{
    let oid = match Oid::from_hex(oid_hex.as_bytes()) {
        Ok(oid) => oid,
        Err(e) => {
            return Err(e.message());
        },
    };
    match bundle.pack.read_object(&oid) {
        Err(e) => Err(e.message()),
        Ok(Some((_, body))) => Ok(body),
        Ok(None) => {
            let mut message = "object not found: ".to_owned();
            message.append(oid_hex);
            Err(message)
        },
    }
}

// --- the log ---------------------------------------------------------------------------------------------------

pub open spec fn oneline_text(oid: Seq<u8>, subject: Seq<char>) -> Seq<char> {
    hex_text(oid) + " "@ + subject + "\n"@
}

/// The lines of a message, each behind four spaces.
pub open spec fn message_text(lines: Seq<Seq<char>>) -> Seq<char>
    decreases lines.len(),
{
    if lines.len() == 0 {
        Seq::empty()
    } else {
        message_text(lines.drop_last()) + ("    "@ + lines.last() + "\n"@)
    }
}

pub open spec fn full_text(
    oid: Seq<u8>,
    name: Seq<char>,
    email: Seq<char>,
    time: int,
    tz: Seq<char>,
    lines: Seq<Seq<char>>,
) -> Seq<char> {
    "commit "@ + hex_text(oid) + "\nAuthor: "@ + name + " <"@ + email + ">\nDate:   "@ + signed_text(time)
        + " "@ + tz + "\n\n"@ + message_text(lines)
}

/// The lines of a message as text.
pub open spec fn readable_lines(message: Seq<u8>) -> Seq<Seq<char>> {
    split(message, 10).map_values(|line: Seq<u8>| readable_text(line))
}

/// A commit as it is shown.
pub open spec fn entry_text(oid: Seq<u8>, c: CommitView, format: Format) -> Seq<char> {
    match format {
        Format::Oid => hex_text(oid) + "\n"@,
        Format::Oneline => oneline_text(oid, readable_text(subject_of(c.message))),
        Format::Full => full_text(
            oid,
            readable_text(c.author.name),
            readable_text(c.author.email),
            c.author.time,
            readable_text(c.author.tz),
            readable_lines(c.message),
        ),
    }
}

/// Commits as they are shown.
pub open spec fn entries_text<O: Odb>(odb: &O, list: Seq<Seq<u8>>, format: Format) -> Seq<char>
    decreases list.len(),
{
    if list.len() == 0 {
        Seq::empty()
    } else {
        entries_text(odb, list.drop_last(), format) + entry_text(
            list.last(),
            commit_at(odb, list.last()),
            format,
        )
    }
}

/// Appends a commit on one line.
pub fn push_oneline(out: &mut String, oid: &Oid, subject: &str)
    ensures
        final(out)@ == old(out)@ + oneline_text(oid@, subject@),
{
    push_oid(out, oid);
    out.append(" ");
    out.append(subject);
    out.append("\n");
    assert(out@ =~= old(out)@ + oneline_text(oid@, subject@));
}

/// Appends a commit in full.
pub fn push_full(
    out: &mut String,
    oid: &Oid,
    name: &str,
    email: &str,
    time: i64,
    tz: &str,
    lines: &Vec<String>,
)
    ensures
        final(out)@ == old(out)@ + full_text(oid@, name@, email@, time as int, tz@, strings(lines@)),
{
    let ghost start = out@;
    out.append("commit ");
    push_oid(out, oid);
    out.append("\nAuthor: ");
    out.append(name);
    out.append(" <");
    out.append(email);
    out.append(">\nDate:   ");
    push_signed(out, time);
    out.append(" ");
    out.append(tz);
    out.append("\n\n");
    let ghost head = out@;
    let ghost all = strings(lines@);
    let mut i: usize = 0;
    assert(all.take(0) =~= Seq::<Seq<char>>::empty());
    assert(head + message_text(all.take(0)) =~= head);
    while i < lines.len()
        invariant
            i <= lines@.len(),
            all == strings(lines@),
            out@ == head + message_text(all.take(i as int)),
        decreases lines.len() - i,
    {
        let ghost before = out@;
        assert(all.take(i + 1).drop_last() =~= all.take(i as int));
        assert(all.take(i + 1).last() == lines@[i as int]@);
        out.append("    ");
        out.append(lines[i].as_str());
        out.append("\n");
        assert(out@ =~= head + message_text(all.take(i + 1)));
        i += 1;
    }
    assert(all.take(i as int) =~= all);
    assert(out@ =~= start + full_text(oid@, name@, email@, time as int, tz@, strings(lines@)));
}

fn decoded_lines(message: &[u8]) -> (r: Vec<String>)
    ensures
        strings(r@) == readable_lines(message@),
{
    let parts = fields(message, 10);
    let ghost all = split(message@, 10);
    let mut out: Vec<String> = Vec::new();
    let mut i: usize = 0;
    while i < parts.len()
        invariant
            i <= parts@.len(),
            out@.len() == i,
            all == views(parts@),
            forall|k: int| 0 <= k < i ==> (#[trigger] out@[k])@ == readable_text(all[k]),
        decreases parts.len() - i,
    {
        assert(all[i as int] == parts@[i as int]@);
        out.push(readable(parts[i]));
        i += 1;
    }
    assert(strings(out@) =~= readable_lines(message@));
    out
}

/// Appends a commit that came up.
fn push_walked(out: &mut String, walked: &WalkedCommit, format: Format) -> (r: Result<()>)
    ensures
        match commit_view(walked.raw@) {
            Ok(c) => r is Ok && final(out)@ == old(out)@ + entry_text(walked.oid@, c, format),
            Err(e) => r == Err::<(), _>(e),
        },
{
    let commit = walked.commit()?;
    match format {
        Format::Oid => {
            push_oid(out, &walked.oid);
            out.append("\n");
            assert(out@ =~= old(out)@ + entry_text(walked.oid@, commit@, format));
        },
        Format::Oneline => {
            let line = readable(subject(commit.message));
            push_oneline(out, &walked.oid, line.as_str());
        },
        Format::Full => {
            let author = readable(commit.author.name);
            let email = readable(commit.author.email);
            let tz = readable(commit.author.tz);
            let lines = decoded_lines(commit.message);
            push_full(
                out,
                &walked.oid,
                author.as_str(),
                email.as_str(),
                commit.author.time,
                tz.as_str(),
                &lines,
            );
        },
    }
    Ok(())
}

/// What is printed where a history cannot start.
pub open spec fn start_text(e: StartError, name: Option<Seq<char>>) -> Seq<char> {
    match e {
        StartError::NoRef => not_found_text(name->0),
        StartError::Refused(e) => e.text(),
    }
}

/// What is printed of the history of a bundle.
pub open spec fn log_text<O: Odb>(
    odb: &O,
    refs: Seq<(Seq<u8>, Seq<u8>)>,
    name: Option<Seq<char>>,
    limit: nat,
    format: Format,
) -> core::result::Result<Seq<char>, Seq<char>> {
    let bytes = match name {
        Some(n) => Some(encode_utf8(n)),
        None => None,
    };
    match starts(odb, refs, bytes) {
        Err(e) => Err(start_text(e, name)),
        Ok(tips) => match listed(odb, tips, limit) {
            Err(e) => Err(e.text()),
            Ok(list) => Ok(entries_text(odb, list, format)),
        },
    }
}

/// The history of a bundle: from the ref with the name or from all refs, `limit` commits at most.
pub fn log(bundle: &Bundle<'_>, name: Option<&str>, limit: usize, format: Format) -> (r:
    core::result::Result<String, String>)
    ensures
        match (
            r,
            log_text(
                &bundle.pack,
                ref_list(bundle.refs@),
                match name {
                    Some(n) => Some(n@),
                    None => None,
                },
                limit as nat,
                format,
            ),
        ) {
            (Ok(out), Ok(text)) => out@ == text,
            (Err(e), Err(f)) => e@ == f,
            _ => false,
        },
{
    let bytes = match name {
        Some(n) => Some(n.as_bytes()),
        None => None,
    };
    let mut walk = match start(bundle, bytes) {
        Ok(walk) => walk,
        Err(StartError::Refused(e)) => {
            return Err(e.message());
        },
        Err(StartError::NoRef) => {
            return Err(
                ref_not_found(
                    match name {
                        Some(n) => n,
                        None => "",
                    },
                ),
            );
        },
    };
    let ghost odb = &bundle.pack;
    let ghost tips = walk@.tips;
    let ghost mut done = Seq::<Seq<u8>>::empty();
    let mut out = String::new();
    let mut n: usize = 0;
    proof {
        lemma_listing_start(&walk, odb, tips, limit as nat);
        assert(out@ =~= Seq::<char>::empty());
    }
    while n < limit
        invariant
            n <= limit,
            odb == &bundle.pack,
            listing(&walk, odb, tips, limit as nat, done),
            done.len() == n,
            out@ == entries_text(odb, done, format),
            starts(
                odb,
                ref_list(bundle.refs@),
                match name {
                    Some(n) => Some(encode_utf8(n@)),
                    None => None,
                },
            ) == Ok::<_, StartError>(tips),
        decreases limit - n,
    {
        let walked = match next_listed(
            &mut walk,
            Ghost(odb),
            Ghost(tips),
            Ghost(limit as nat),
            Ghost(done),
        ) {
            None => {
                return Ok(out);
            },
            Some(Err(e)) => {
                return Err(e.message());
            },
            Some(Ok(walked)) => walked,
        };
        if let Err(e) = push_walked(&mut out, &walked, format) {
            return Err(e.message());
        }
        proof {
            assert(done.push(walked.oid@).drop_last() =~= done);
            done = done.push(walked.oid@);
        }
        n += 1;
    }
    proof {
        lemma_listing_end(&walk, odb, tips, limit as nat, done);
    }
    Ok(out)
}

// --- clones ----------------------------------------------------------------------------------------------------

/// The name of a bundle for the repository at an address: the last part of the address.
pub open spec fn bundle_name(url: Seq<char>) -> Seq<char> {
    let whole = without_end(url, '/');
    let last = match cut_last(whole, '/') {
        Some((_, last)) => last,
        None => whole,
    };
    let stem = if last.len() >= 4 && last.skip(last.len() - 4) == ".git"@ {
        last.take(last.len() - 4)
    } else {
        last
    };
    (if stem.len() == 0 {
        "repo"@
    } else {
        stem
    }) + ".bundle"@
}

/// The name of a bundle for the repository at an address (`repo.bundle` for `.../repo.git`).
pub fn default_bundle_name(url: &str) -> (r: String)
    ensures
        r@ == bundle_name(url@),
{
    let list = chars_of(url);
    let whole = trim_end(list.as_slice(), '/');
    let last = match last_of(whole, '/') {
        Some(i) => chars_from(whole, i + 1),
        None => whole,
    };
    let stem = if last.len() >= 4 && is_text(chars_from(last, last.len() - 4), ".git") {
        chars_to(last, last.len() - 4)
    } else {
        last
    };
    let mut out = String::new();
    if stem.len() == 0 {
        out.append("repo");
    } else {
        push_chars(&mut out, stem);
    }
    out.append(".bundle");
    assert(out@ =~= bundle_name(url@));
    out
}

/// What is printed after a clone.
pub open spec fn summary_text(path: Seq<char>, refs: nat, bytes: nat, boundary: nat) -> Seq<char> {
    path + ": "@ + decimal_text(refs) + " refs, "@ + decimal_text(bytes) + " bytes ("@ + (if boundary
        == 0 {
        "full"@
    } else {
        "shallow, "@ + decimal_text(boundary) + " boundary commits"@
    }) + ")"@
}

/// What is printed after a clone: where the bundle is, what it holds, and where its history is cut
/// off.
pub fn clone_summary(path: &str, refs: usize, bytes: usize, boundary: usize) -> (r: String)
    ensures
        r@ == summary_text(path@, refs as nat, bytes as nat, boundary as nat),
{
    let mut out = path.to_owned();
    out.append(": ");
    push_number(&mut out, refs as u64);
    out.append(" refs, ");
    push_number(&mut out, bytes as u64);
    out.append(" bytes (");
    if boundary == 0 {
        out.append("full");
    } else {
        out.append("shallow, ");
        push_number(&mut out, boundary as u64);
        out.append(" boundary commits");
    }
    out.append(")");
    assert(out@ =~= summary_text(path@, refs as nat, bytes as nat, boundary as nat));
    out
}

// --- pushes and checkouts ------------------------------------------------------------------------------------

/// One line for each ref: whether it was updated, or why not.
pub open spec fn result_lines(results: Seq<ResultView>) -> Seq<char>
    decreases results.len(),
{
    if results.len() == 0 {
        Seq::empty()
    } else {
        let (name, reason) = results.last();
        result_lines(results.drop_last()) + result_line(
            readable_text(name),
            match reason {
                Some(text) => Some(readable_text(text)),
                None => None,
            },
        )
    }
}

pub open spec fn result_line(name: Seq<char>, reason: Option<Seq<char>>) -> Seq<char> {
    name + ": "@ + (match reason {
        Some(text) => text,
        None => "ok"@,
    }) + "\n"@
}

/// What is printed after a push. One of which a part failed is an error.
pub open spec fn push_text(report: Option<ReportView>) -> core::result::Result<Seq<char>, Seq<char>> {
    match report {
        None => Ok("up to date\n"@),
        Some(report) => if succeeded(report) {
            Ok(result_lines(report.results))
        } else {
            Err("push failed\n"@ + result_lines(report.results))
        },
    }
}

/// Appends the line of a ref after a push.
pub fn push_result(out: &mut String, name: &str, reason: Option<&str>)
    ensures
        final(out)@ == old(out)@ + result_line(
            name@,
            match reason {
                Some(text) => Some(text@),
                None => None,
            },
        ),
{
    let ghost start = out@;
    out.append(name);
    out.append(": ");
    match reason {
        Some(text) => {
            out.append(text);
            out.append("\n");
            assert(out@ =~= start + result_line(name@, Some(text@)));
        },
        None => {
            out.append("ok");
            out.append("\n");
            assert(out@ =~= start + result_line(name@, None));
        },
    }
}

/// What is printed after a push: that nothing was to be done, or what became of each ref.
pub fn push_summary(report: Option<&PushReport>) -> (r: core::result::Result<String, String>)
    ensures
        match (
            r,
            push_text(
                match report {
                    Some(report) => Some(report@),
                    None => None,
                },
            ),
        ) {
            (Ok(out), Ok(text)) => out@ == text,
            (Err(e), Err(f)) => e@ == f,
            _ => false,
        },
{
    let report = match report {
        Some(report) => report,
        None => {
            return Ok("up to date\n".to_owned());
        },
    };
    let ghost all = report@.results;
    let mut out = String::new();
    let ok = report.is_success();
    if !ok {
        out.append("push failed\n");
    }
    let ghost head = out@;
    let mut i: usize = 0;
    assert(all.take(0) =~= Seq::<ResultView>::empty());
    assert(out@ =~= head + result_lines(all.take(0)));
    while i < report.results.len()
        invariant
            i <= report.results@.len(),
            all == result_views(report.results@),
            out@ == head + result_lines(all.take(i as int)),
        decreases report.results.len() - i,
    {
        assert(all.take(i + 1).drop_last() =~= all.take(i as int));
        assert(all.take(i + 1).last() == all[i as int]);
        let name = readable(report.results[i].0.as_slice());
        match &report.results[i].1 {
            None => {
                push_result(&mut out, name.as_str(), None);
            },
            Some(reason) => {
                let text = readable(reason.as_slice());
                push_result(&mut out, name.as_str(), Some(text.as_str()));
            },
        }
        assert(out@ =~= head + result_lines(all.take(i + 1)));
        i += 1;
    }
    assert(all.take(i as int) =~= all);
    if ok {
        assert(out@ =~= result_lines(all));
        Ok(out)
    } else {
        assert(out@ =~= "push failed\n"@ + result_lines(all));
        Err(out)
    }
}

/// The tree of the commit that a ref leads to, or what is wrong.
pub open spec fn tree_at<O: Odb>(
    odb: &O,
    refs: Seq<(Seq<u8>, Seq<u8>)>,
    name: Seq<char>,
) -> core::result::Result<Seq<u8>, Seq<char>> {
    match ref_named(refs, encode_utf8(name)) {
        None => Err(not_found_text(name)),
        Some(oid) => match peeled(odb, oid, 16) {
            Err(e) => Err(e.text()),
            Ok(commit) => Ok(commit_at(odb, commit).tree),
        },
    }
}

/// The tree of the commit that a ref leads to.
pub fn checkout_tree(bundle: &Bundle<'_>, name: &str) -> (r: core::result::Result<Oid, String>)
    ensures
        match (r, tree_at(&bundle.pack, ref_list(bundle.refs@), name@)) {
            (Ok(tree), Ok(want)) => tree@ == want,
            (Err(e), Err(f)) => e@ == f,
            _ => false,
        },
{
    let oid = match bundle.find_ref(name.as_bytes()) {
        Some(oid) => oid,
        None => {
            return Err(ref_not_found(name));
        },
    };
    match peel(&bundle.pack, oid) {
        Err(e) => Err(e.message()),
        Ok((_, body)) => match parse_commit(body.as_slice()) {
            Ok(commit) => Ok(commit.tree),
            Err(e) => Err(e.message()),
        },
    }
}

} // verus!
