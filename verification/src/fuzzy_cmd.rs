//! The dispatch tree facade: configuration, splitting, and the entry point.

pub mod execution_error;
pub mod node;
pub mod refnode;

use vstd::prelude::*;
use vstd::string::StrSliceExecFns;
use vstd::string::StringExecFns;

use crate::fuzzy_cmd::execution_error::concat_texts;
use crate::fuzzy_cmd::execution_error::ExecutionError;
use crate::fuzzy_cmd::node::spec_children;
use crate::fuzzy_cmd::node::spec_dispatch;
use crate::fuzzy_cmd::node::Node;
use crate::fuzzy_cmd::node::NodeView;
use crate::fuzzy_cmd::node::Outcome;

verus! {

/// The tokens that splitting `s` on `sep` yields, in order; empty tokens are
/// kept, nothing is collapsed. An empty separator splits between every pair
/// of neighbouring characters, with an empty token at each end, as the
/// standard library's splitting does.
pub open spec fn spec_split(s: Seq<char>, sep: Seq<char>) -> Seq<Seq<char>>
    decreases s.len(),
{
    if sep.len() == 0 {
        seq![Seq::<char>::empty()] + Seq::new(s.len(), |i: int| seq![s[i]]) + seq![
            Seq::<char>::empty(),
        ]
    } else if s.len() >= sep.len() && s.take(sep.len() as int) == sep {
        seq![Seq::<char>::empty()] + spec_split(s.skip(sep.len() as int), sep)
    } else if s.len() == 0 {
        seq![Seq::<char>::empty()]
    } else {
        let rest = spec_split(s.drop_first(), sep);
        rest.update(0, seq![s[0]] + rest[0])
    }
}

pub proof fn lemma_split_len(s: Seq<char>, sep: Seq<char>)
    ensures
        spec_split(s, sep).len() >= 1,
    decreases s.len(),
{
    if sep.len() == 0 {
    } else if s.len() >= sep.len() && s.take(sep.len() as int) == sep {
        lemma_split_len(s.skip(sep.len() as int), sep);
    } else if s.len() == 0 {
    } else {
        lemma_split_len(s.drop_first(), sep);
    }
}

/// The texts of `ts` with `pre` written in front of the first one.
spec fn prepend_first(pre: Seq<char>, ts: Seq<Seq<char>>) -> Seq<Seq<char>> {
    ts.update(0, pre + ts[0])
}

/// Whether `sep` occurs in `s` at character position `i`.
fn occurs_at(s: &str, sep: &str, i: usize) -> (r: bool)
    requires
        i + sep@.len() <= s@.len(),
        s@.len() <= usize::MAX,
    ensures
        r == (sep@ == s@.subrange(i as int, i as int + sep@.len() as int)),
{
    let l = sep.unicode_len();
    let mut k: usize = 0;
    while k < l
        invariant
            k <= l,
            l == sep@.len(),
            i + l <= s@.len(),
            s@.len() <= usize::MAX,
            forall|t: int| 0 <= t < k ==> sep@[t] == s@[i + t],
        decreases l - k,
    {
        if s.get_char(i + k) != sep.get_char(k) {
            proof {
                assert(sep@ != s@.subrange(i as int, i as int + sep@.len() as int)) by {
                    if sep@ == s@.subrange(i as int, i as int + sep@.len() as int) {
                        assert(sep@[k as int] == s@.subrange(
                            i as int,
                            i as int + sep@.len() as int,
                        )[k as int]);
                    }
                }
            }
            return false;
        }
        k += 1;
    }
    proof {
        assert(sep@ =~= s@.subrange(i as int, i as int + sep@.len() as int));
    }
    true
}

/// Split `s` on `sep`, keeping empty tokens.
fn split_exec(s: &str, sep: &str) -> (out: Vec<String>)
    ensures
        out.deep_view() == spec_split(s@, sep@),
{
    let n = s.unicode_len();
    let l = sep.unicode_len();
    let mut out: Vec<String> = Vec::new();
    if l == 0 {
        out.push(String::new());
        let mut i: usize = 0;
        while i < n
            invariant
                i <= n,
                n == s@.len(),
                out@.len() == i + 1,
                out@[0]@ == Seq::<char>::empty(),
                forall|j: int| 1 <= j <= i ==> out@[j]@ == seq![s@[j - 1]],
            decreases n - i,
        {
            let piece = s.substring_char(i, i + 1).to_owned();
            proof {
                assert(s@.subrange(i as int, i as int + 1) =~= seq![s@[i as int]]);
            }
            out.push(piece);
            i += 1;
        }
        out.push(String::new());
        proof {
            assert(out.deep_view() =~~= spec_split(s@, sep@));
        }
        out
    } else {
        let mut cur = String::new();
        let mut i: usize = 0;
        proof {
            lemma_split_len(s@, sep@);
            assert(s@.skip(0) =~= s@);
            assert(prepend_first(Seq::<char>::empty(), spec_split(s@, sep@)) =~~= spec_split(
                s@,
                sep@,
            ));
        }
        while i < n
            invariant
                i <= n,
                n == s@.len(),
                l == sep@.len(),
                l >= 1,
                spec_split(s@, sep@) == out.deep_view() + prepend_first(
                    cur@,
                    spec_split(s@.skip(i as int), sep@),
                ),
            decreases n - i,
        {
            let ghost pre = spec_split(s@.skip(i as int), sep@);
            proof {
                lemma_split_len(s@.skip(i as int), sep@);
            }
            if l <= n - i && occurs_at(s, sep, i) {
                proof {
                    let sk = s@.skip(i as int);
                    assert(sk.take(l as int) =~= s@.subrange(i as int, i as int + l as int));
                    assert(sk.skip(l as int) =~= s@.skip(i as int + l as int));
                    lemma_split_len(s@.skip(i as int + l as int), sep@);
                    assert(pre == seq![Seq::<char>::empty()] + spec_split(
                        s@.skip(i as int + l as int),
                        sep@,
                    ));
                    assert(prepend_first(cur@, pre) =~~= seq![cur@] + spec_split(
                        s@.skip(i as int + l as int),
                        sep@,
                    ));
                    assert(prepend_first(
                        Seq::<char>::empty(),
                        spec_split(s@.skip(i as int + l as int), sep@),
                    ) =~~= spec_split(s@.skip(i as int + l as int), sep@));
                }
                out.push(cur);
                cur = String::new();
                proof {
                    assert(out.deep_view() + prepend_first(
                        cur@,
                        spec_split(s@.skip(i as int + l as int), sep@),
                    ) =~~= spec_split(s@, sep@));
                }
                i += l;
            } else {
                proof {
                    let sk = s@.skip(i as int);
                    assert(sk.len() > 0);
                    if sk.len() >= l && sk.take(l as int) == sep@ {
                        assert(sk.take(l as int) =~= s@.subrange(i as int, i as int + l as int));
                        assert(false);
                    }
                    let rest = spec_split(sk.drop_first(), sep@);
                    lemma_split_len(sk.drop_first(), sep@);
                    assert(sk.drop_first() =~= s@.skip(i as int + 1));
                    assert(sk[0] == s@[i as int]);
                    assert(pre == rest.update(0, seq![s@[i as int]] + rest[0]));
                    assert(prepend_first(cur@, pre) =~~= prepend_first(
                        cur@ + seq![s@[i as int]],
                        rest,
                    ));
                }
                let piece = s.substring_char(i, i + 1);
                proof {
                    assert(s@.subrange(i as int, i as int + 1) =~= seq![s@[i as int]]);
                }
                cur.append(piece);
                i += 1;
            }
        }
        proof {
            assert(s@.skip(i as int) =~= Seq::<char>::empty());
            assert(spec_split(s@.skip(i as int), sep@) == seq![Seq::<char>::empty()]);
            assert(prepend_first(cur@, seq![Seq::<char>::empty()]) =~~= seq![cur@]);
        }
        out.push(cur);
        proof {
            assert(out.deep_view() =~~= spec_split(s@, sep@));
        }
        out
    }
}

/// The configuration and contents of a [`FuzzyCmd`], as contracts describe
/// it.
pub struct FuzzyCmdView {
    pub fuzzy: bool,
    pub seperator: Seq<char>,
    pub tree: NodeView,
}

/// The dispatch tree: a root node together with the matching policy and the
/// separator that [`FuzzyCmd::exec`] splits commands on.
pub struct FuzzyCmd {
    fuzzy: bool,
    seperator: String,
    tree: Node,
}

impl View for FuzzyCmd {
    type V = FuzzyCmdView;

    closed spec fn view(&self) -> FuzzyCmdView {
        FuzzyCmdView { fuzzy: self.fuzzy, seperator: self.seperator@, tree: self.tree@ }
    }
}

impl FuzzyCmd {
    /// Create a new empty FuzzyCmd: fuzzy matching enabled, a single space as
    /// the separator, and an unassigned root.
    pub fn new() -> (fz: Self)
        ensures
            fz@.fuzzy == true,
            fz@.seperator == seq![' '],
            fz@.tree == NodeView::Leaf(None::<u64>),
    {
        Default::default()
    }

    /// Enable fuzziness for matching commands. Default.
    pub fn enable_fuzzy(self) -> (fz: Self)
        ensures
            fz@.fuzzy == true,
            fz@.seperator == self@.seperator,
            fz@.tree == self@.tree,
    {
        let mut fz = self;
        fz.fuzzy = true;
        fz
    }

    /// Disable fuzziness for matching commands.
    pub fn disable_fuzzy(self) -> (fz: Self)
        ensures
            fz@.fuzzy == false,
            fz@.seperator == self@.seperator,
            fz@.tree == self@.tree,
    {
        let mut fz = self;
        fz.fuzzy = false;
        fz
    }

    /// Set the seperator for a chain of commands. The default seperator is
    /// `' '` (a space).
    pub fn seperator(self, sep: &str) -> (fz: Self)
        ensures
            fz@.fuzzy == self@.fuzzy,
            fz@.seperator == sep@,
            fz@.tree == self@.tree,
    {
        let mut fz = self;
        fz.seperator = sep.to_owned();
        fz
    }

    /// Execute a command: split it on the configured separator and walk the
    /// tree with the resulting tokens.
    pub fn exec(&self, cmd: &str) -> (r: Result<u64, ExecutionError>)
        ensures
            ({
                let o = spec_dispatch(self@.tree, spec_split(cmd@, self@.seperator), self@.fuzzy);
                match r {
                    Ok(k) => o == Outcome::Run(k),
                    Err(e) => match o {
                        Outcome::Run(_) => false,
                        Outcome::Unassigned(rest) => e@ == concat_texts(rest),
                        Outcome::NoMatch(rest) => e@ == concat_texts(rest),
                        Outcome::Ambiguous(rest) => e@ == concat_texts(rest),
                    },
                }
            }),
    {
        let cmds = split_exec(cmd, self.seperator.as_str());
        let sl = cmds.as_slice();
        proof {
            assert(sl.deep_view() =~= cmds.deep_view());
        }
        self.tree.exec(sl, self.fuzzy)
    }

    /// Add a command under the root. This adds a top-level command and
    /// returns the new subnode for chaining.
    pub fn add(&mut self, cmd: &str) -> (child: &mut Node)
        ensures
            (*child)@ == NodeView::Leaf(None::<u64>),
            final(self)@.fuzzy == old(self)@.fuzzy,
            final(self)@.seperator == old(self)@.seperator,
            final(self)@.tree == NodeView::Internal(
                spec_children(old(self)@.tree).push((cmd@, (*final(child))@)),
            ),
    {
        self.tree.add(cmd)
    }
}

impl Default for FuzzyCmd {
    /// Equivalent to [`FuzzyCmd::new`].
    fn default() -> (fz: Self)
        ensures
            fz@.fuzzy == true,
            fz@.seperator == seq![' '],
            fz@.tree == NodeView::Leaf(None::<u64>),
    {
        proof {
            reveal_strlit(" ");
            assert(" "@ =~= seq![' ']);
        }
        FuzzyCmd { fuzzy: true, seperator: String::from_str(" "), tree: Node::new() }
    }
}

} // verus!
