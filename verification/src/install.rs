//! Installing an app: a copy is staged on the device, installed and removed.

use vstd::prelude::*;

verus! {

/// What an install does next, or how it ended.
#[derive(Debug, Clone, Copy, PartialEq, Eq, Structural)]
pub enum InstallStep {
    /// Stage a copy on the device.
    Upload,
    /// Install the staged copy.
    Install,
    /// Remove the staged copy, however the install went. A provider that leaks
    /// one per install fills the device.
    Remove { installed: bool },
    Done,
    Failed,
}

impl InstallStep {
    /// The step after this one, by whether it worked. A copy that was staged in
    /// part has to go too, and one that cannot be removed undoes no install.
    pub open spec fn following(self, worked: bool) -> InstallStep {
        match self {
            InstallStep::Upload => if worked {
                InstallStep::Install
            } else {
                InstallStep::Remove { installed: false }
            },
            InstallStep::Install => InstallStep::Remove { installed: worked },
            InstallStep::Remove { installed } => if installed {
                InstallStep::Done
            } else {
                InstallStep::Failed
            },
            InstallStep::Done => InstallStep::Done,
            InstallStep::Failed => InstallStep::Failed,
        }
    }

    /// The step after this one, by whether it worked.
    pub fn after(self, worked: bool) -> (step: InstallStep)
        ensures
            step == self.following(worked),
    {
        match self {
            InstallStep::Upload => if worked {
                InstallStep::Install
            } else {
                InstallStep::Remove { installed: false }
            },
            InstallStep::Install => InstallStep::Remove { installed: worked },
            InstallStep::Remove { installed } => if installed {
                InstallStep::Done
            } else {
                InstallStep::Failed
            },
            InstallStep::Done => InstallStep::Done,
            InstallStep::Failed => InstallStep::Failed,
        }
    }

    /// What is reported as a step begins.
    pub fn label(self) -> (label: Option<&'static str>)
        ensures
            match self {
                InstallStep::Upload => label is Some && label->0@ == "uploading"@,
                InstallStep::Install => label is Some && label->0@ == "installing"@,
                InstallStep::Done => label is Some && label->0@ == "done"@,
                _ => label is None,
            },
    {
        match self {
            InstallStep::Upload => Some("uploading"),
            InstallStep::Install => Some("installing"),
            InstallStep::Done => Some("done"),
            _ => None,
        }
    }

    /// Whether the install is over.
    pub open spec fn is_over(self) -> bool {
        self is Done || self is Failed
    }
}

/// The steps of an install that begins here, of which these worked and those did
/// not, up to its end.
pub open spec fn steps_from(step: InstallStep, worked: Seq<bool>) -> Seq<InstallStep>
    decreases worked.len(),
{
    if step.is_over() || worked.len() == 0 {
        seq![step]
    } else {
        seq![step] + steps_from(step.following(worked[0]), worked.drop_first())
    }
}

/// The staged copy goes whatever happens: an install that is over has just
/// removed it, and done so once. It is over after three steps at the most, and
/// is done exactly where the upload and the install worked.
pub proof fn law_the_staged_copy_always_goes(worked: Seq<bool>)
    requires
        worked.len() >= 3,
    ensures
        ({
            let steps = steps_from(InstallStep::Upload, worked);
            let n = steps.len() as int;
            &&& 3 <= n <= 4
            &&& steps[n - 1].is_over()
            &&& steps[n - 2] is Remove
            &&& forall|i: int| 0 <= i < n && (#[trigger] steps[i]) is Remove ==> i == n - 2
            &&& steps[n - 1] is Done <==> worked[0] && worked[1]
        }),
{
    let first = InstallStep::Upload.following(worked[0]);
    let later = worked.drop_first();
    let second = first.following(later[0]);
    let last = later.drop_first();
    let third = second.following(last[0]);
    let end = last.drop_first();
    assert(later[0] == worked[1] && last[0] == worked[2]);
    if worked[0] {
        assert(steps_from(third, end) =~= seq![third]);
        assert(steps_from(second, last) =~= seq![second, third]);
        assert(steps_from(first, later) =~= seq![first, second, third]);
        assert(steps_from(InstallStep::Upload, worked) =~= seq![
            InstallStep::Upload,
            first,
            second,
            third,
        ]);
    } else {
        assert(steps_from(second, last) =~= seq![second]);
        assert(steps_from(first, later) =~= seq![first, second]);
        assert(steps_from(InstallStep::Upload, worked) =~= seq![
            InstallStep::Upload,
            first,
            second,
        ]);
    }
}

} // verus!
