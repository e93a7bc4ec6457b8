//! Starting Discord back up.
//!
//! Some launchers hand off to Discord and exit straight away, so the caller
//! can wait for them and report a real failure; others are Discord itself,
//! and waiting would block until the user quits it.
use vstd::prelude::*;
use crate::clean::unit_result_view;
use crate::discord::{spec_label, Install, LaunchSpec};
use crate::text::{clone_strings, string_views};

verus! {

/// The command that starts an install again.
#[derive(Debug)]
pub struct LaunchPlan {
    pub program: String,
    pub args: Vec<String>,
    /// The program hands off to Discord and exits: wait for it and check
    /// that it succeeded. Otherwise it is Discord itself, and is left to run.
    pub wait_for_exit: bool,
}

/// A launch plan as mathematical values.
pub struct LaunchPlanModel {
    pub program: Seq<char>,
    pub args: Seq<Seq<char>>,
    pub wait_for_exit: bool,
}

impl View for LaunchPlan {
    type V = LaunchPlanModel;

    open spec fn view(&self) -> LaunchPlanModel {
        LaunchPlanModel {
            program: self.program@,
            args: string_views(self.args@),
            wait_for_exit: self.wait_for_exit,
        }
    }
}

/// The plan for a launch spec: `open -b <bundle id>` on macOS, Squirrel's
/// `Update.exe --processStart <exe>` on Windows (starting the versioned
/// executable directly would quietly break the auto-updater), or the
/// command as given.
pub open spec fn spec_plan(s: LaunchSpec) -> LaunchPlanModel {
    match s {
        LaunchSpec::MacOsBundleId(id) => LaunchPlanModel {
            program: "open"@,
            args: seq!["-b"@, id@],
            wait_for_exit: true,
        },
        LaunchSpec::WindowsSquirrel { update_exe, exe_name } => LaunchPlanModel {
            program: update_exe@,
            args: seq!["--processStart"@, exe_name@],
            wait_for_exit: true,
        },
        LaunchSpec::Command { program, args } => LaunchPlanModel {
            program: program@,
            args: string_views(args@),
            wait_for_exit: false,
        },
    }
}

/// How `install` is started again, or why it cannot be.
pub open spec fn spec_launch(install: Install) -> Result<LaunchPlanModel, Seq<char>> {
    match install.launch {
        Some(s) => Ok(spec_plan(s)),
        None => Err(
            "couldn't work out how to start "@ + spec_label(install.flavor, install.packaging),
        ),
    }
}

/// The view of a launch decision.
pub open spec fn launch_view(r: Result<LaunchPlan, String>) -> Result<LaunchPlanModel, Seq<char>> {
    match r {
        Ok(p) => Ok(p@),
        Err(e) => Err(e@),
    }
}

/// The command that starts `install` again, or the reason there is none.
pub fn launch(install: &Install) -> (r: Result<LaunchPlan, String>)
    ensures
        launch_view(r) == spec_launch(*install),
{
    match &install.launch {
        None => {
            let mut e = String::new();
            e.append("couldn't work out how to start ");
            let label = install.label();
            e.append(label.as_str());
            Err(e)
        },
        Some(LaunchSpec::MacOsBundleId(id)) => {
            let mut args: Vec<String> = Vec::new();
            args.push("-b".to_owned());
            args.push((*id).to_owned());
            let plan = LaunchPlan { program: "open".to_owned(), args, wait_for_exit: true };
            assert(plan@.args =~= seq!["-b"@, id@]);
            Ok(plan)
        },
        Some(LaunchSpec::WindowsSquirrel { update_exe, exe_name }) => {
            let mut args: Vec<String> = Vec::new();
            args.push("--processStart".to_owned());
            args.push(exe_name.clone());
            let plan = LaunchPlan { program: update_exe.clone(), args, wait_for_exit: true };
            assert(plan@.args =~= seq!["--processStart"@, exe_name@]);
            Ok(plan)
        },
        Some(LaunchSpec::Command { program, args }) => {
            let plan = LaunchPlan {
                program: program.clone(),
                args: clone_strings(args),
                wait_for_exit: false,
            };
            Ok(plan)
        },
    }
}

/// The reason given when the launcher of the install labelled `label`
/// could not be started at all.
pub fn start_failure(label: &str) -> (r: String)
    ensures
        r@ == "failed to start "@ + label@,
{
    let mut e = String::new();
    e.append("failed to start ");
    e.append(label);
    e
}

/// The reason given when a launcher that hands off exited unsuccessfully,
/// `status` being how it exited.
pub fn exit_failure(label: &str, status: &str) -> (r: String)
    ensures
        r@ == label@ + " failed to start ("@ + status@ + ")"@,
{
    let mut e = String::new();
    e.append(label);
    e.append(" failed to start (");
    e.append(status);
    e.append(")");
    e
}

/// How the launch went: `started` says whether the program could be
/// started at all; for a plan that waits, `succeeded` says whether it
/// exited successfully and `status` how it exited, in words. It is a
/// success exactly when the program started and, where it was waited for,
/// exited successfully.
pub open spec fn spec_launch_result(
    label: Seq<char>,
    wait_for_exit: bool,
    started: bool,
    succeeded: bool,
    status: Seq<char>,
) -> Result<(), Seq<char>> {
    if !started {
        Err("failed to start "@ + label)
    } else if wait_for_exit && !succeeded {
        Err(label + " failed to start ("@ + status + ")"@)
    } else {
        Ok(())
    }
}

/// The result of running `plan` for the install labelled `label` (see
/// `spec_launch_result`).
pub fn launch_result(label: &str, plan: &LaunchPlan, started: bool, succeeded: bool, status: &str) -> (r:
    Result<(), String>)
    ensures
        unit_result_view(r) == spec_launch_result(label@, plan.wait_for_exit, started, succeeded, status@),
        r is Ok <==> started && (!plan.wait_for_exit || succeeded),
{
    if !started {
        Err(start_failure(label))
    } else if plan.wait_for_exit && !succeeded {
        Err(exit_failure(label, status))
    } else {
        Ok(())
    }
}

} // verus!
