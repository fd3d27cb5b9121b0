//! The handle-based variant of the command node: registration through
//! borrowed handles, with the same discriminated behaviour as the core node.

use vstd::prelude::*;

use crate::fuzzy_cmd::execution_error::concat_texts;
use crate::fuzzy_cmd::execution_error::ExecutionError;
use crate::fuzzy_cmd::node::label_matches;
use crate::fuzzy_cmd::node::label_matches_exec;
use crate::fuzzy_cmd::node::lemma_match_count_one;
use crate::fuzzy_cmd::node::lemma_match_count_take_le;
use crate::fuzzy_cmd::node::lemma_match_count_take_succ;
use crate::fuzzy_cmd::node::lemma_match_count_zero;
use crate::fuzzy_cmd::node::match_count;
use crate::fuzzy_cmd::node::Outcome;
use crate::fuzzy_cmd::refnode::RefNode;

verus! {

/// The shape of a [`Node`] in this variant: an optional action key and an
/// ordered sequence of labelled children. A tree built through [`Node::add`]
/// and [`Node::call`] never populates both at once.
pub struct NodeView {
    pub function: Option<u64>,
    pub children: Seq<(Seq<char>, NodeView)>,
}

/// A command node of the handle-based variant. It stores an action slot and
/// a child list in separate fields but behaves as the discriminated
/// [`crate::fuzzy_cmd::node::Node`] does: adding a subnode discards any
/// bound action, binding an action discards all subnodes, and a childless
/// node is a leaf that resolves by its action slot alone.
pub struct Node {
    function: Option<u64>,
    sub: Vec<(String, Node)>,
}

/// The shapes of a list of labelled children, in order.
pub closed spec fn children_view(cs: Seq<(String, Node)>) -> Seq<(Seq<char>, NodeView)>
    decreases cs,
{
    if cs.len() == 0 {
        Seq::empty()
    } else {
        children_view(cs.drop_last()).push((cs.last().0@, cs.last().1@))
    }
}

impl View for Node {
    type V = NodeView;

    closed spec fn view(&self) -> NodeView
        decreases self,
    {
        NodeView { function: self.function, children: children_view(self.sub@) }
    }
}

pub broadcast proof fn lemma_children_view_len(cs: Seq<(String, Node)>)
    ensures
        #[trigger] children_view(cs).len() == cs.len(),
    decreases cs.len(),
{
    if cs.len() > 0 {
        lemma_children_view_len(cs.drop_last());
        assert(children_view(cs) == children_view(cs.drop_last()).push(
            (cs.last().0@, cs.last().1@),
        ));
    } else {
        assert(children_view(cs) == Seq::<(Seq<char>, NodeView)>::empty());
    }
}

pub broadcast proof fn lemma_children_view_index(cs: Seq<(String, Node)>, i: int)
    requires
        0 <= i < cs.len(),
    ensures
        #[trigger] children_view(cs)[i] == (cs[i].0@, cs[i].1@),
    decreases cs.len(),
{
    lemma_children_view_len(cs);
    lemma_children_view_len(cs.drop_last());
    assert(children_view(cs) == children_view(cs.drop_last()).push(
        (cs.last().0@, cs.last().1@),
    ));
    if i < cs.len() - 1 {
        lemma_children_view_index(cs.drop_last(), i);
        assert(cs.drop_last()[i] == cs[i]);
    } else {
        assert(cs.last() == cs[i]);
    }
}

pub broadcast proof fn lemma_children_view_push(cs: Seq<(String, Node)>, x: (String, Node))
    ensures
        #[trigger] children_view(cs.push(x)) == children_view(cs).push((x.0@, x.1@)),
{
    assert(cs.push(x).drop_last() =~= cs);
    assert(cs.push(x).last() == x);
    assert(children_view(cs.push(x)) == children_view(cs.push(x).drop_last()).push(
        (cs.push(x).last().0@, cs.push(x).last().1@),
    ));
}

/// Hand out a mutable reference to the last child in the list.
fn last_child_mut(v: &mut Vec<(String, Node)>) -> (child: &mut Node)
    requires
        old(v)@.len() > 0,
    ensures
        *child == old(v)@.last().1,
        final(v)@ == old(v)@.update(old(v)@.len() - 1, (old(v)@.last().0, *final(child))),
{
    let idx = v.len() - 1;
    &mut v[idx].1
}

/// The dispatch walk for this variant: a childless node is a leaf and
/// resolves at once by its action slot, whatever tokens remain; a node with
/// children consumes the first token to select the single child it matches,
/// and fails when it matches none or several, or when no token is left.
pub open spec fn spec_dispatch(n: NodeView, tokens: Seq<Seq<char>>, fuzzy: bool) -> Outcome
    decreases tokens.len(),
{
    if n.children.len() == 0 {
        match n.function {
            Some(k) => Outcome::Run(k),
            None => Outcome::Unassigned(tokens),
        }
    } else if tokens.len() == 0 {
        Outcome::Unassigned(tokens)
    } else {
        let m = match_count(n.children, tokens[0], fuzzy);
        if m == 0 {
            Outcome::NoMatch(tokens)
        } else if m >= 2 {
            Outcome::Ambiguous(tokens)
        } else {
            let j = choose|j: int|
                0 <= j < n.children.len() && label_matches(n.children[j].0, tokens[0], fuzzy);
            spec_dispatch(n.children[j].1, tokens.drop_first(), fuzzy)
        }
    }
}

impl Node {
    /// Create a new node: no action bound yet, no subnodes.
    pub fn new() -> (n: Self)
        ensures
            n@.function == None::<u64>,
            n@.children == Seq::<(Seq<char>, NodeView)>::empty(),
    {
        proof {
            assert(children_view(Seq::<(String, Node)>::empty())
                == Seq::<(Seq<char>, NodeView)>::empty());
        }
        Node { function: None, sub: Vec::new() }
    }

    /// Append a subnode registered under `cmd`, making this node internal:
    /// any action the node held is discarded, while its other children stay.
    /// Returns a handle to the new subnode, still unassigned.
    pub fn add(&mut self, cmd: &str) -> (r: RefNode<'_>)
        ensures
            (*r.node)@.function == None::<u64>,
            (*r.node)@.children == Seq::<(Seq<char>, NodeView)>::empty(),
            final(self)@.function == None::<u64>,
            final(self)@.children == old(self)@.children.push((cmd@, (*final(r.node))@)),
    {
        self.function = None;
        let ghost v0 = self.sub@;
        let label = cmd.to_owned();
        let node = Node::new();
        let ghost x0 = (label, node);
        self.sub.push((label, node));
        let child = last_child_mut(&mut self.sub);
        proof {
            assert(v0.push(x0).last() == x0);
            assert(v0.push(x0).update(v0.push(x0).len() - 1, (x0.0, *final(child))) =~= v0.push(
                (x0.0, *final(child)),
            ));
            lemma_children_view_push(v0, (x0.0, *final(child)));
        }
        RefNode { node: child }
    }

    /// Bind this node to an action key, making it a leaf. Any subnodes the
    /// node held are discarded.
    pub fn call(&mut self, f: u64)
        ensures
            final(self)@.function == Some(f),
            final(self)@.children == Seq::<(Seq<char>, NodeView)>::empty(),
    {
        proof {
            assert(children_view(Seq::<(String, Node)>::empty())
                == Seq::<(Seq<char>, NodeView)>::empty());
        }
        self.function = Some(f);
        self.sub = Vec::new();
    }

    /// Walk this node against the given tokens and report what the walk
    /// comes to: the action key of the leaf it reaches, or an error carrying
    /// the tokens remaining at the point of failure, concatenated. A leaf
    /// never bound to an action reports a dispatch failure rather than
    /// aborting, and an internal node reached with no tokens left does the
    /// same.
    pub fn exec(&self, cmd: &[String], match_fuzzy: bool) -> (r: Result<u64, ExecutionError>)
        ensures
            ({
                let o = spec_dispatch(self@, cmd.deep_view(), match_fuzzy);
                match r {
                    Ok(k) => o == Outcome::Run(k),
                    Err(e) => match o {
                        Outcome::Run(_) => false,
                        Outcome::Unassigned(rest) => e@ == concat_texts(rest),
                        Outcome::NoMatch(rest) => e@ == concat_texts(rest),
                        Outcome::Ambiguous(rest) => e@ == concat_texts(rest),
                    },
                }
            }),
        decreases cmd@.len(),
    {
        let ghost toks = cmd.deep_view();
        let ghost cs = children_view(self.sub@);
        proof {
            lemma_children_view_len(self.sub@);
        }
        if self.sub.len() == 0 {
            match self.function {
                Some(k) => Ok(k),
                None => Err(ExecutionError::new(cmd)),
            }
        } else if cmd.len() == 0 {
            Err(ExecutionError::new(cmd))
        } else {
            let token = vstd::slice::slice_index_get(cmd, 0);
            let mut found: Option<usize> = None;
            let mut j: usize = 0;
            while j < self.sub.len()
                invariant
                    j <= self.sub@.len(),
                    cs == children_view(self.sub@),
                    cs.len() == self.sub@.len(),
                    self@.children == cs,
                    toks == cmd.deep_view(),
                    toks.len() == cmd@.len(),
                    toks.len() > 0,
                    token@ == toks[0],
                    match found {
                        None => match_count(cs.take(j as int), toks[0], match_fuzzy) == 0,
                        Some(jf) => jf < j && label_matches(cs[jf as int].0, toks[0], match_fuzzy)
                            && match_count(cs.take(j as int), toks[0], match_fuzzy) == 1,
                    },
                decreases self.sub@.len() - j,
            {
                proof {
                    lemma_children_view_index(self.sub@, j as int);
                    lemma_match_count_take_succ(cs, toks[0], match_fuzzy, j as int);
                }
                let lm = label_matches_exec(&self.sub[j].0, token, match_fuzzy);
                if lm {
                    match found {
                        None => {
                            found = Some(j);
                        },
                        Some(_) => {
                            proof {
                                lemma_match_count_take_le(cs, toks[0], match_fuzzy, j + 1);
                            }
                            return Err(ExecutionError::new(cmd));
                        },
                    }
                }
                j += 1;
            }
            proof {
                assert(cs.take(self.sub@.len() as int) =~= cs);
            }
            match found {
                None => {
                    proof {
                        lemma_match_count_zero(cs, toks[0], match_fuzzy);
                    }
                    Err(ExecutionError::new(cmd))
                },
                Some(jf) => {
                    proof {
                        lemma_match_count_one(cs, toks[0], match_fuzzy, jf as int);
                        let jstar = choose|t: int|
                            0 <= t < cs.len() && label_matches(cs[t].0, toks[0], match_fuzzy);
                        assert((jf as int) < cs.len() && label_matches(
                            cs[jf as int].0,
                            toks[0],
                            match_fuzzy,
                        ));
                        assert(jstar == jf as int);
                        lemma_children_view_index(self.sub@, jf as int);
                    }
                    let rest = vstd::slice::slice_subrange(cmd, 1, cmd.len());
                    proof {
                        assert(rest.deep_view() =~= toks.drop_first());
                    }
                    let sub = &self.sub[jf].1;
                    sub.exec(rest, match_fuzzy)
                },
            }
        }
    }
}

} // verus!
