//! The command line: what the arguments ask for, and the lines the terminal
//! run prints about its findings.
use vstd::prelude::*;
use crate::clean::{Outcome, OutcomeModel, ItemModel, Report};
use crate::discord::{spec_label, Install, Scope};
use crate::job::Options;
use crate::path::chars_eq;
use crate::text::{chars_of, string_views};
use crate::units::{format_bytes, spec_format_bytes};

verus! {

/// The usage text.
pub const HELP: &'static str = "\
Discord Desktop Fixer — clears Discord's caches when it gets stuck.

USAGE:
    discord-desktop-fixer [OPTIONS]

Run with no options to open the app.

OPTIONS:
    --cli            Run in the terminal instead of opening a window
    --dry-run        Show what would be cleared without deleting anything
                     (implies --cli)
    --deep           Also clear stored modules and web storage, which fixes
                     clients stuck on \"Checking for updates\". You stay
                     logged in either way.
    --no-relaunch    Don't reopen Discord afterwards
    -h, --help       Print this help
    -V, --version    Print version
";

/// What the arguments ask for.
#[derive(Debug, Clone)]
pub enum Command {
    Help,
    Version,
    /// An argument that is no option; the first such.
    Unknown(String),
    /// A fix, in the terminal where `cli` is set, else in a window.
    Run { options: Options, cli: bool },
}

pub enum CommandModel {
    Help,
    Version,
    Unknown(Seq<char>),
    Run { options: Options, cli: bool },
}

impl View for Command {
    type V = CommandModel;

    open spec fn view(&self) -> CommandModel {
        match self {
            Command::Help => CommandModel::Help,
            Command::Version => CommandModel::Version,
            Command::Unknown(a) => CommandModel::Unknown(a@),
            Command::Run { options, cli } => CommandModel::Run { options: *options, cli: *cli },
        }
    }
}

/// `flag` is one of the arguments.
pub open spec fn has_arg(args: Seq<Seq<char>>, flag: Seq<char>) -> bool {
    exists|k: int| 0 <= k < args.len() && args[k] == flag
}

/// An option that a fix understands.
pub open spec fn is_run_option(a: Seq<char>) -> bool {
    a == "--cli"@ || a == "--dry-run"@ || a == "--deep"@ || a == "--no-relaunch"@
}

/// The first argument that is no such option.
pub open spec fn first_unknown(args: Seq<Seq<char>>) -> Option<Seq<char>>
    decreases args.len(),
{
    if args.len() == 0 {
        None
    } else if !is_run_option(args[0]) {
        Some(args[0])
    } else {
        first_unknown(args.skip(1))
    }
}

/// What the arguments ask for: help and the version win over everything;
/// then any argument that is no option is refused; otherwise a fix, deep
/// with `--deep`, reopening Discord unless `--no-relaunch`, and in the
/// terminal with `--cli` or `--dry-run`.
pub open spec fn spec_parse(args: Seq<Seq<char>>) -> CommandModel {
    if has_arg(args, "-h"@) || has_arg(args, "--help"@) {
        CommandModel::Help
    } else if has_arg(args, "-V"@) || has_arg(args, "--version"@) {
        CommandModel::Version
    } else {
        match first_unknown(args) {
            Some(a) => CommandModel::Unknown(a),
            None => CommandModel::Run {
                options: Options {
                    scope: if has_arg(args, "--deep"@) {
                        Scope::Deep
                    } else {
                        Scope::Safe
                    },
                    relaunch: !has_arg(args, "--no-relaunch"@),
                    dry_run: has_arg(args, "--dry-run"@),
                },
                cli: has_arg(args, "--cli"@) || has_arg(args, "--dry-run"@),
            },
        }
    }
}

fn str_eq(a: &str, b: &str) -> (r: bool)
    ensures
        r == (a@ == b@),
{
    chars_eq(&chars_of(a), &chars_of(b))
}

fn has_flag(args: &Vec<String>, flag: &str) -> (r: bool)
    ensures
        r == has_arg(string_views(args@), flag@),
{
    let mut i: usize = 0;
    while i < args.len()
        invariant
            i <= args.len(),
            forall|k: int| 0 <= k < i ==> args@[k]@ != flag@,
        decreases args.len() - i,
    {
        if str_eq(args[i].as_str(), flag) {
            assert(string_views(args@)[i as int] == flag@);
            return true;
        }
        i = i + 1;
    }
    assert forall|k: int| 0 <= k < string_views(args@).len() implies string_views(args@)[k] != flag@ by {
        assert(string_views(args@)[k] == args@[k]@);
    }
    false
}

fn run_option(a: &str) -> (r: bool)
    ensures
        r == is_run_option(a@),
{
    str_eq(a, "--cli") || str_eq(a, "--dry-run") || str_eq(a, "--deep") || str_eq(a, "--no-relaunch")
}

/// What the arguments, the program name left out, ask for.
pub fn parse_args(args: &Vec<String>) -> (r: Command)
    ensures
        r@ == spec_parse(string_views(args@)),
{
    if has_flag(args, "-h") || has_flag(args, "--help") {
        return Command::Help;
    }
    if has_flag(args, "-V") || has_flag(args, "--version") {
        return Command::Version;
    }
    let ghost all = string_views(args@);
    let mut i: usize = 0;
    assert(all.skip(0) =~= all);
    while i < args.len()
        invariant
            i <= args.len(),
            all == string_views(args@),
            !(has_arg(all, "-h"@) || has_arg(all, "--help"@)),
            !(has_arg(all, "-V"@) || has_arg(all, "--version"@)),
            first_unknown(all) == first_unknown(all.skip(i as int)),
        decreases args.len() - i,
    {
        assert(all.skip(i as int)[0] == args@[i as int]@);
        assert(all.skip(i as int).len() > 0);
        if !run_option(args[i].as_str()) {
            let a = args[i].clone();
            assert(first_unknown(all.skip(i as int)) == Some(a@));
            return Command::Unknown(a);
        }
        assert(all.skip(i as int).skip(1) =~= all.skip(i + 1));
        i = i + 1;
    }
    assert(all.skip(i as int) =~= Seq::<Seq<char>>::empty());
    let dry_run = has_flag(args, "--dry-run");
    let options = Options {
        scope: if has_flag(args, "--deep") {
            Scope::Deep
        } else {
            Scope::Safe
        },
        relaunch: !has_flag(args, "--no-relaunch"),
        dry_run,
    };
    Command::Run { options, cli: has_flag(args, "--cli") || dry_run }
}

/// What is printed for an argument that is no option.
pub fn unknown_option_message(arg: &str) -> (r: String)
    ensures
        r@ == "unrecognised option: "@ + arg@ + "\n\n"@ + HELP@,
{
    let mut m = String::new();
    m.append("unrecognised option: ");
    m.append(arg);
    m.append("\n\n");
    m.append(HELP);
    m
}

/// The line announcing an install that was found.
pub fn found_line(install: &Install) -> (r: String)
    ensures
        r@ == "Found "@ + spec_label(install.flavor, install.packaging) + " at "@ + install.data_dir@,
{
    let mut m = String::new();
    m.append("Found ");
    let label = install.label();
    m.append(label.as_str());
    m.append(" at ");
    m.append(install.data_dir.as_str());
    m
}

/// `s` right-aligned in `width` characters: spaces before it where it is
/// shorter.
pub open spec fn pad_left(s: Seq<char>, width: nat) -> Seq<char> {
    if s.len() < width {
        Seq::new((width - s.len()) as nat, |i: int| ' ') + s
    } else {
        s
    }
}

/// The line listing an item a dry run would remove.
pub open spec fn removal_line(bytes: u64, path: Seq<char>) -> Seq<char> {
    "  "@ + pad_left(spec_format_bytes(bytes as nat), 10) + "  "@ + path
}

/// The lines for the removed items, in order.
pub open spec fn removal_lines(items: Seq<ItemModel>) -> Seq<Seq<char>>
    decreases items.len(),
{
    if items.len() == 0 {
        seq![]
    } else {
        removal_lines(items.drop_last()) + match items.last().outcome {
            OutcomeModel::Removed { bytes } => seq![removal_line(bytes, items.last().path)],
            _ => seq![],
        }
    }
}

fn push_removal_line(out: &mut Vec<String>, bytes: u64, path: &String)
    ensures
        string_views(final(out)@) == string_views(old(out)@).push(removal_line(bytes, path@)),
{
    let size = format_bytes(bytes);
    let n = size.unicode_len();
    let mut line = String::new();
    line.append("  ");
    let mut k: usize = n;
    while k < 10
        invariant
            n <= k <= 10 || (n > 10 && k == n),
            line@ == "  "@ + Seq::new((k - n) as nat, |i: int| ' '),
        decreases 10 - k,
    {
        line.push(' ');
        k = k + 1;
        assert(line@ =~= "  "@ + Seq::new((k - n) as nat, |i: int| ' '));
    }
    line.append(size.as_str());
    line.append("  ");
    line.append(path.as_str());
    proof {
        if n < 10 {
            assert(line@ =~= removal_line(bytes, path@));
        } else {
            assert(Seq::new(0nat, |i: int| ' ') =~= Seq::<char>::empty());
            assert(line@ =~= removal_line(bytes, path@));
        }
    }
    let ghost before = out@;
    out.push(line);
    assert(string_views(out@) =~= string_views(before).push(removal_line(bytes, path@)));
}

/// What a dry run lists: each item it would remove, its size right-aligned.
pub fn removal_lines_of(report: &Report) -> (r: Vec<String>)
    ensures
        string_views(r@) == removal_lines(report@),
{
    let mut out: Vec<String> = Vec::new();
    let mut i: usize = 0;
    assert(report@.take(0) =~= Seq::<ItemModel>::empty());
    while i < report.items.len()
        invariant
            i <= report.items.len(),
            string_views(out@) == removal_lines(report@.take(i as int)),
        decreases report.items.len() - i,
    {
        assert(report@.take(i + 1).drop_last() =~= report@.take(i as int));
        let item = &report.items[i];
        assert(item@ == report@[i as int]);
        match item.outcome {
            Outcome::Removed { bytes } => {
                push_removal_line(&mut out, bytes, &item.path);
            },
            _ => {},
        }
        i = i + 1;
    }
    assert(report@.take(i as int) =~= report@);
    out
}

/// Only `--no-relaunch` keeps Discord from being reopened: whenever the
/// arguments ask for a fix, it reopens Discord exactly when `--no-relaunch`
/// is absent, it is deep exactly when `--deep` is given, a dry run exactly
/// when `--dry-run` is given, and in the terminal exactly when `--cli` or
/// `--dry-run` is given.
pub proof fn lemma_each_option_does_one_thing(args: Seq<Seq<char>>)
    ensures
        spec_parse(args) matches CommandModel::Run { options, cli } ==> {
            &&& options.relaunch == !has_arg(args, "--no-relaunch"@)
            &&& (options.scope == Scope::Deep) == has_arg(args, "--deep"@)
            &&& options.dry_run == has_arg(args, "--dry-run"@)
            &&& cli == (has_arg(args, "--cli"@) || has_arg(args, "--dry-run"@))
        },
{
}

proof fn lemma_first_unknown_push(args: Seq<Seq<char>>, extra: Seq<char>)
    requires
        is_run_option(extra),
    ensures
        first_unknown(args.push(extra)) == first_unknown(args),
    decreases args.len(),
{
    if args.len() == 0 {
        assert(args.push(extra).skip(1) =~= Seq::<Seq<char>>::empty());
        assert(args.push(extra)[0] == extra);
        assert(first_unknown(Seq::<Seq<char>>::empty()) == None::<Seq<char>>);
        assert(args =~= Seq::<Seq<char>>::empty());
    } else {
        assert(args.push(extra)[0] == args[0]);
        assert(args.push(extra).skip(1) =~= args.skip(1).push(extra));
        lemma_first_unknown_push(args.skip(1), extra);
    }
}

/// Adding `--cli`, `--deep` or `--dry-run` to arguments that ask for a fix
/// still asks for a fix, and changes nothing about whether Discord is
/// reopened.
pub proof fn lemma_other_options_keep_the_relaunch(args: Seq<Seq<char>>, extra: Seq<char>)
    requires
        extra == "--cli"@ || extra == "--deep"@ || extra == "--dry-run"@,
        spec_parse(args) is Run,
    ensures
        spec_parse(args.push(extra)) is Run,
        spec_parse(args.push(extra))->Run_options.relaunch == spec_parse(args)->Run_options.relaunch,
{
    reveal_strlit("--cli");
    reveal_strlit("--deep");
    reveal_strlit("--dry-run");
    reveal_strlit("--no-relaunch");
    reveal_strlit("-h");
    reveal_strlit("--help");
    reveal_strlit("-V");
    reveal_strlit("--version");
    let a2 = args.push(extra);
    lemma_first_unknown_push(args, extra);
    assert forall|flag: Seq<char>| flag != extra implies has_arg(a2, flag) == has_arg(args, flag) by {
        if has_arg(a2, flag) {
            let k = choose|k: int| 0 <= k < a2.len() && a2[k] == flag;
            assert(k < args.len());
            assert(args[k] == a2[k]);
        }
        if has_arg(args, flag) {
            let k = choose|k: int| 0 <= k < args.len() && args[k] == flag;
            assert(a2[k] == args[k]);
        }
    }
    assert((extra.len() == 5 || extra.len() == 6 || extra.len() == 9) && (extra[2] == 'c' || extra[2] == 'd'));
    assert("--help"@[2] == 'h' && "--version"@[2] == 'v');
    assert(extra != "-h"@ && extra != "--help"@ && extra != "-V"@ && extra != "--version"@ && extra
        != "--no-relaunch"@);
    assert(has_arg(a2, "--no-relaunch"@) == has_arg(args, "--no-relaunch"@));
    assert(has_arg(a2, "-h"@) == has_arg(args, "-h"@));
    assert(has_arg(a2, "--help"@) == has_arg(args, "--help"@));
    assert(has_arg(a2, "-V"@) == has_arg(args, "-V"@));
    assert(has_arg(a2, "--version"@) == has_arg(args, "--version"@));
}

} // verus!
