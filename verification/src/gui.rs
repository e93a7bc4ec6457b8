//! What the window shows and lets the user choose, apart from the drawing.
//!
//! One screen, one button: the installs found (all chosen at first), the
//! two options, and then the progress lines and the result of the fix,
//! which a worker thread sends as messages.
use vstd::prelude::*;
use crate::discord::{Install, InstallModel, Scope};
use crate::job::{Options, Summary};
use crate::clean::{ItemModel, Outcome, OutcomeModel, Report};
use crate::path::{file_name, spec_file_name};
use crate::text::string_views;
use crate::units::{decimal, format_bytes, push_decimal, spec_format_bytes};

verus! {

/// A message from the worker running a fix.
pub enum Msg {
    /// A progress line.
    Step(String),
    /// The fix is over.
    Done(Box<Summary>),
}

/// What the window shows.
pub enum Screen {
    /// The choices, and the button.
    Idle,
    /// A fix is running; the lines it reported so far.
    Running { steps: Vec<String> },
    /// The fix is over.
    Done { summary: Box<Summary>, dry_run: bool },
}

/// The state of the window.
pub struct App {
    pub installs: Vec<Install>,
    /// Whether each install is chosen, by index.
    pub selected: Vec<bool>,
    pub deep: bool,
    pub relaunch: bool,
    pub dry_run: bool,
    pub screen: Screen,
}

/// The views of some installs.
pub open spec fn install_views(v: Seq<Install>) -> Seq<InstallModel> {
    v.map_values(|i: Install| i@)
}

/// The installs whose flag is set, in order; an install without a flag is
/// left out.
pub open spec fn chosen_of(installs: Seq<InstallModel>, selected: Seq<bool>) -> Seq<InstallModel>
    decreases installs.len(),
{
    if installs.len() == 0 {
        seq![]
    } else {
        let k = installs.len() - 1;
        chosen_of(installs.drop_last(), selected) + if k < selected.len() && selected[k] {
            seq![installs[k]]
        } else {
            seq![]
        }
    }
}

/// The progress lines among some messages, in order.
pub open spec fn step_lines(msgs: Seq<Msg>) -> Seq<Seq<char>>
    decreases msgs.len(),
{
    if msgs.len() == 0 {
        seq![]
    } else {
        step_lines(msgs.drop_last()) + match msgs.last() {
            Msg::Step(line) => seq![line@],
            Msg::Done(_) => seq![],
        }
    }
}

/// The summary of the last message that ends the fix, if any.
pub open spec fn last_summary(msgs: Seq<Msg>) -> Option<Box<Summary>>
    decreases msgs.len(),
{
    if msgs.len() == 0 {
        None
    } else {
        match msgs.last() {
            Msg::Done(s) => Some(s),
            Msg::Step(_) => last_summary(msgs.drop_last()),
        }
    }
}

impl App {
    /// The window for the installs found, all chosen, with the options
    /// given on the command line.
    pub fn new(installs: Vec<Install>, options: Options) -> (r: App)
        ensures
            r.installs@ == installs@,
            r.selected@ == Seq::new(installs@.len(), |i: int| true),
            r.deep == (options.scope == Scope::Deep),
            r.relaunch == options.relaunch,
            r.dry_run == options.dry_run,
            r.screen is Idle,
    {
        let mut selected: Vec<bool> = Vec::new();
        let mut i: usize = 0;
        while i < installs.len()
            invariant
                i <= installs.len(),
                selected@ == Seq::new(i as nat, |k: int| true),
            decreases installs.len() - i,
        {
            selected.push(true);
            i = i + 1;
            assert(selected@ =~= Seq::new(i as nat, |k: int| true));
        }
        App {
            installs,
            selected,
            deep: options.scope == Scope::Deep,
            relaunch: options.relaunch,
            dry_run: options.dry_run,
            screen: Screen::Idle,
        }
    }

    /// Copies of the chosen installs, in order.
    pub fn chosen(&self) -> (r: Vec<Install>)
        ensures
            install_views(r@) == chosen_of(install_views(self.installs@), self.selected@),
    {
        let mut r: Vec<Install> = Vec::new();
        let mut i: usize = 0;
        let ghost all = install_views(self.installs@);
        assert(all.take(0) =~= Seq::<InstallModel>::empty());
        while i < self.installs.len()
            invariant
                i <= self.installs.len(),
                all == install_views(self.installs@),
                install_views(r@) == chosen_of(all.take(i as int), self.selected@),
            decreases self.installs.len() - i,
        {
            assert(all.take(i + 1).drop_last() =~= all.take(i as int));
            let ghost before = r@;
            if i < self.selected.len() && self.selected[i] {
                r.push(self.installs[i].copied());
                assert(install_views(r@) =~= install_views(before).push(all[i as int]));
            }
            i = i + 1;
        }
        assert(all.take(i as int) =~= all);
        r
    }

    /// Some install is chosen: the button is enabled.
    pub fn any_chosen(&self) -> (r: bool)
        ensures
            r == exists|k: int| 0 <= k < self.selected@.len() && self.selected@[k],
    {
        let mut i: usize = 0;
        while i < self.selected.len()
            invariant
                i <= self.selected.len(),
                forall|k: int| 0 <= k < i ==> !self.selected@[k],
            decreases self.selected.len() - i,
        {
            if self.selected[i] {
                return true;
            }
            i = i + 1;
        }
        false
    }

    /// The options of the fix the button starts.
    pub fn options(&self) -> (r: Options)
        ensures
            r == (Options {
                scope: if self.deep {
                    Scope::Deep
                } else {
                    Scope::Safe
                },
                relaunch: self.relaunch,
                dry_run: self.dry_run,
            }),
    {
        Options {
            scope: if self.deep {
                Scope::Deep
            } else {
                Scope::Safe
            },
            relaunch: self.relaunch,
            dry_run: self.dry_run,
        }
    }

    /// A fix was started: the window shows its progress.
    pub fn start(&mut self)
        ensures
            final(self).screen matches Screen::Running { steps } && steps@.len() == 0,
            final(self).installs == old(self).installs,
            final(self).selected == old(self).selected,
            final(self).deep == old(self).deep,
            final(self).relaunch == old(self).relaunch,
            final(self).dry_run == old(self).dry_run,
    {
        self.screen = Screen::Running { steps: Vec::new() };
    }

    /// Takes what the worker has said since the last frame: its progress
    /// lines are kept, in order, and a message that the fix is over shows
    /// the result (the last such message, should there be several). Outside
    /// a running fix nothing changes.
    pub fn pump(&mut self, msgs: Vec<Msg>)
        ensures
            final(self).installs == old(self).installs,
            final(self).selected == old(self).selected,
            final(self).deep == old(self).deep,
            final(self).relaunch == old(self).relaunch,
            final(self).dry_run == old(self).dry_run,
            match old(self).screen {
                Screen::Running { steps } => match last_summary(msgs@) {
                    Some(s) => final(self).screen == Screen::Done {
                        summary: s,
                        dry_run: old(self).dry_run,
                    },
                    None => final(self).screen matches Screen::Running { steps: now } && now@.map_values(
                        |l: String| l@,
                    ) == steps@.map_values(|l: String| l@) + step_lines(msgs@),
                },
                _ => final(self).screen == old(self).screen,
            },
    {
        let running = match &self.screen {
            Screen::Running { .. } => true,
            _ => false,
        };
        if !running {
            return;
        }
        let mut taken = Screen::Idle;
        std::mem::swap(&mut taken, &mut self.screen);
        let mut steps: Vec<String> = match taken {
            Screen::Running { steps } => steps,
            _ => Vec::new(),
        };
        let ghost start = steps@.map_values(|l: String| l@);
        let mut msgs = msgs;
        let ghost all = msgs@;
        let ghost mut k: int = 0;
        let mut finished: Option<Box<Summary>> = None;
        assert(all.take(0) =~= Seq::<Msg>::empty());
        assert(start + step_lines(Seq::<Msg>::empty()) =~= start);
        while msgs.len() > 0
            invariant
                0 <= k <= all.len(),
                msgs@ == all.skip(k),
                steps@.map_values(|l: String| l@) == start + step_lines(all.take(k)),
                finished == last_summary(all.take(k)),
            decreases msgs.len(),
        {
            let msg = msgs.remove(0);
            assert(all.take(k + 1).drop_last() =~= all.take(k));
            assert(msg == all[k]);
            assert(msgs@ =~= all.skip(k + 1));
            let ghost before = steps@;
            match msg {
                Msg::Step(line) => {
                    let ghost lv = line@;
                    steps.push(line);
                    assert(steps@.map_values(|l: String| l@) =~= before.map_values(|l: String| l@).push(lv));
                    assert(all.take(k + 1).last() == all[k]);
                    assert(steps@.map_values(|l: String| l@) =~= start + step_lines(all.take(k + 1)));
                },
                Msg::Done(summary) => {
                    finished = Some(summary);
                    assert(steps@.map_values(|l: String| l@) =~= start + step_lines(all.take(k + 1)));
                },
            }
            proof {
                k = k + 1;
            }
        }
        assert(all.take(k) =~= all);
        match finished {
            Some(summary) => {
                self.screen = Screen::Done { summary, dry_run: self.dry_run };
            },
            None => {
                self.screen = Screen::Running { steps };
            },
        }
    }
}

/// The last component of a path, which reads better than the whole
/// (`…/discord/Code Cache` as `Code Cache`); the whole path where there is
/// none.
pub fn display_name(path: &str) -> (r: String)
    ensures
        r@ == match spec_file_name(path@) {
            Some(n) => n,
            None => path@,
        },
{
    match file_name(path) {
        Some(n) => n,
        None => path.to_owned(),
    }
}

/// The header over the warnings of a finished fix.
pub open spec fn attention_header(n: nat) -> Seq<char> {
    decimal(n) + " thing(s) needed attention"@
}

/// The header over `n` warnings.
pub fn attention_header_of(n: usize) -> (r: String)
    ensures
        r@ == attention_header(n as nat),
{
    let mut out = String::new();
    push_decimal(&mut out, n as u128);
    out.append(" thing(s) needed attention");
    out
}

/// A path as the window names it: its last component, or the whole path.
pub open spec fn shown_name(path: Seq<char>) -> Seq<char> {
    match spec_file_name(path) {
        Some(n) => n,
        None => path,
    }
}

/// The detail lines of a finished fix: for each removed item, in order, its
/// name and size.
pub open spec fn detail_lines(items: Seq<ItemModel>) -> Seq<Seq<char>>
    decreases items.len(),
{
    if items.len() == 0 {
        seq![]
    } else {
        detail_lines(items.drop_last()) + match items.last().outcome {
            OutcomeModel::Removed { bytes } => seq![
                shown_name(items.last().path) + "  —  "@ + spec_format_bytes(bytes as nat),
            ],
            _ => seq![],
        }
    }
}

/// The detail lines of a report (see `detail_lines`).
pub fn detail_lines_of(report: &Report) -> (r: Vec<String>)
    ensures
        string_views(r@) == detail_lines(report@),
{
    let mut out: Vec<String> = Vec::new();
    let mut i: usize = 0;
    assert(report@.take(0) =~= Seq::<ItemModel>::empty());
    while i < report.items.len()
        invariant
            i <= report.items.len(),
            string_views(out@) == detail_lines(report@.take(i as int)),
        decreases report.items.len() - i,
    {
        assert(report@.take(i + 1).drop_last() =~= report@.take(i as int));
        let item = &report.items[i];
        assert(item@ == report@[i as int]);
        match item.outcome {
            Outcome::Removed { bytes } => {
                let mut line = display_name(item.path.as_str());
                line.append("  —  ");
                let size = format_bytes(bytes);
                line.append(size.as_str());
                let ghost before = out@;
                out.push(line);
                assert(string_views(out@) =~= string_views(before).push(line@));
            },
            _ => {},
        }
        i = i + 1;
    }
    assert(report@.take(i as int) =~= report@);
    out
}

} // verus!
