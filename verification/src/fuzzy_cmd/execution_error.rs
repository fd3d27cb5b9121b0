//! The error reported when dispatch fails.

use vstd::prelude::*;
use vstd::string::StrSliceExecFns;
use vstd::string::StringExecFns;

verus! {

/// The single text formed by writing the given texts one after another, with
/// nothing between them.
pub open spec fn concat_texts(ts: Seq<Seq<char>>) -> Seq<char>
    decreases ts.len(),
{
    if ts.len() == 0 {
        Seq::empty()
    } else {
        concat_texts(ts.drop_last()) + ts.last()
    }
}

/// The text of the message that [`ExecutionError::message`] produces for a
/// failure whose remaining tokens concatenate to `cmd`.
pub open spec fn spec_message(cmd: Seq<char>) -> Seq<char> {
    "no function to execute command '"@ + cmd + "'"@
}

/// Reported when dispatch cannot route a command: the next token matched no
/// child, or matched two or more children at once, or the walk ended at a
/// node that was never bound to an action.
///
/// It carries the remaining tokens at the point of failure, concatenated into
/// one text; the cases are not distinguished in the data.
#[derive(Debug)]
pub struct ExecutionError {
    cmd: String,
}

impl View for ExecutionError {
    type V = Seq<char>;

    closed spec fn view(&self) -> Seq<char> {
        self.cmd@
    }
}

impl ExecutionError {
    /// Build the error for a failure with the given remaining tokens.
    pub fn new(cmds: &[String]) -> (e: Self)
        ensures
            e@ == concat_texts(cmds.deep_view()),
    {
        let ghost dv = cmds.deep_view();
        let mut cmd = String::new();
        let mut j: usize = 0;
        while j < cmds.len()
            invariant
                j <= dv.len(),
                dv == cmds.deep_view(),
                dv.len() == cmds@.len(),
                cmd@ == concat_texts(dv.take(j as int)),
            decreases dv.len() - j,
        {
            proof {
                assert(dv.take(j + 1).drop_last() =~= dv.take(j as int));
                assert(dv.take(j + 1).last() == cmds@[j as int]@);
            }
            let part = vstd::slice::slice_index_get(cmds, j);
            cmd.append(part.as_str());
            j += 1;
        }
        proof {
            assert(dv.take(j as int) =~= dv);
        }
        ExecutionError { cmd }
    }

    /// The human-readable account of the failure.
    pub fn message(&self) -> (s: String)
        ensures
            s@ == spec_message(self@),
    {
        let mut s = String::from_str("no function to execute command '");
        s.append(self.cmd.as_str());
        s.append("'");
        s
    }
}

} // verus!
