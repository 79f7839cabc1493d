use vstd::prelude::*;

verus! {

/// Commands the listening loop to stop or continue.
#[derive(Clone, Copy, Debug, PartialEq, Eq, Structural)]
#[must_use]
pub enum ListeningCmd {
    Continue,
    Stop,
}

impl Default for ListeningCmd {
    fn default() -> (r: ListeningCmd)
        ensures
            r == ListeningCmd::Continue,
    {
        ListeningCmd::Continue
    }
}

/// A callback that returns nothing asks the loop to continue.
impl From<()> for ListeningCmd {
    fn from(_u: ()) -> (r: ListeningCmd)
        ensures
            r == ListeningCmd::Continue,
    {
        ListeningCmd::Continue
    }
}

impl vstd::std_specs::convert::FromSpecImpl<()> for ListeningCmd {
    open spec fn obeys_from_spec() -> bool {
        true
    }

    open spec fn from_spec(v: ()) -> ListeningCmd {
        ListeningCmd::Continue
    }
}

/// "Stop dominates": the combination of two commands.
pub open spec fn merged(a: ListeningCmd, b: ListeningCmd) -> ListeningCmd {
    if a == ListeningCmd::Stop || b == ListeningCmd::Stop {
        ListeningCmd::Stop
    } else {
        ListeningCmd::Continue
    }
}

/// Whether any command of the sequence is `Stop`.
pub open spec fn any_stop(cmds: Seq<ListeningCmd>) -> bool {
    exists|i: int| 0 <= i < cmds.len() && cmds[i] == ListeningCmd::Stop
}

/// Combines two commands: `Stop` if either is `Stop`, else `Continue`.
pub fn merge(a: ListeningCmd, b: ListeningCmd) -> (r: ListeningCmd)
    ensures
        r == merged(a, b),
{
    match (a, b) {
        (ListeningCmd::Continue, ListeningCmd::Continue) => ListeningCmd::Continue,
        _ => ListeningCmd::Stop,
    }
}

/// Combines all the commands that the callbacks of one cycle returned:
/// `Stop` exactly when one of them is `Stop`; `Continue` for none.
pub fn merge_all(cmds: &Vec<ListeningCmd>) -> (r: ListeningCmd)
    ensures
        r == ListeningCmd::Stop <==> any_stop(cmds@),
{
    let mut acc = ListeningCmd::Continue;
    let mut i: usize = 0;
    while i < cmds.len()
        invariant
            i <= cmds.len(),
            acc == ListeningCmd::Stop <==> any_stop(cmds@.subrange(0, i as int)),
        decreases cmds.len() - i,
    {
        proof {
            let s = cmds@.subrange(0, i as int);
            let t = cmds@.subrange(0, i + 1);
            assert forall|k: int| 0 <= k < s.len() implies t[k] == s[k] by {}
            assert(t[i as int] == cmds@[i as int]);
        }
        acc = merge(acc, cmds[i]);
        i = i + 1;
    }
    assert(cmds@.subrange(0, i as int) =~= cmds@);
    acc
}

} // verus!
