//! Command nodes and the dispatch walk.

use vstd::prelude::*;
use vstd::string::StrSliceExecFns;

use crate::fuzzy_cmd::execution_error::concat_texts;
use crate::fuzzy_cmd::execution_error::ExecutionError;

verus! {

/// The shape of a [`Node`], as contracts describe it: a leaf, possibly bound
/// to an action key, or an internal node with an ordered sequence of
/// labelled children.
pub enum NodeView {
    Leaf(Option<u64>),
    Internal(Seq<(Seq<char>, NodeView)>),
}

/// What a node holds next: an action to run, or labelled subnodes to descend
/// into. `Action(None)` is the unassigned state of a freshly created node.
pub enum Next {
    Action(Option<u64>),
    Sub(Vec<(String, Node)>),
}

/// A command node. A node holds either an action key or a list of labelled
/// subnodes; see [`Node::add`] and [`Node::call`] for how one turns into the
/// other.
pub struct Node {
    next: Next,
}

/// The shapes of a list of labelled children, in order.
pub closed spec fn children_view(cs: Seq<(String, Node)>) -> Seq<(Seq<char>, NodeView)>
    decreases cs,
{
    if cs.len() == 0 {
        Seq::empty()
    } else {
        children_view(cs.drop_last()).push((cs.last().0@, cs.last().1@))
    }
}

impl View for Node {
    type V = NodeView;

    closed spec fn view(&self) -> NodeView
        decreases self,
    {
        match self.next {
            Next::Action(a) => NodeView::Leaf(a),
            Next::Sub(v) => NodeView::Internal(children_view(v@)),
        }
    }
}

pub broadcast proof fn lemma_children_view_len(cs: Seq<(String, Node)>)
    ensures
        #[trigger] children_view(cs).len() == cs.len(),
    decreases cs.len(),
{
    if cs.len() > 0 {
        lemma_children_view_len(cs.drop_last());
        assert(children_view(cs) == children_view(cs.drop_last()).push(
            (cs.last().0@, cs.last().1@),
        ));
    } else {
        assert(children_view(cs) == Seq::<(Seq<char>, NodeView)>::empty());
    }
}

pub broadcast proof fn lemma_children_view_index(cs: Seq<(String, Node)>, i: int)
    requires
        0 <= i < cs.len(),
    ensures
        #[trigger] children_view(cs)[i] == (cs[i].0@, cs[i].1@),
    decreases cs.len(),
{
    lemma_children_view_len(cs);
    lemma_children_view_len(cs.drop_last());
    assert(children_view(cs) == children_view(cs.drop_last()).push(
        (cs.last().0@, cs.last().1@),
    ));
    if i < cs.len() - 1 {
        lemma_children_view_index(cs.drop_last(), i);
        assert(cs.drop_last()[i] == cs[i]);
    } else {
        assert(cs.last() == cs[i]);
    }
}

pub broadcast proof fn lemma_children_view_push(cs: Seq<(String, Node)>, x: (String, Node))
    ensures
        #[trigger] children_view(cs.push(x)) == children_view(cs).push((x.0@, x.1@)),
{
    assert(cs.push(x).drop_last() =~= cs);
    assert(cs.push(x).last() == x);
    assert(children_view(cs.push(x)) == children_view(cs.push(x).drop_last()).push(
        (cs.push(x).last().0@, cs.push(x).last().1@),
    ));
}

/// Hand out a mutable reference to the last child in the list.
fn last_child_mut(v: &mut Vec<(String, Node)>) -> (child: &mut Node)
    requires
        old(v)@.len() > 0,
    ensures
        *child == old(v)@.last().1,
        final(v)@ == old(v)@.update(old(v)@.len() - 1, (old(v)@.last().0, *final(child))),
{
    let idx = v.len() - 1;
    &mut v[idx].1
}

/// The children of a shape: those of an internal node, none for a leaf.
pub open spec fn spec_children(v: NodeView) -> Seq<(Seq<char>, NodeView)> {
    match v {
        NodeView::Internal(cs) => cs,
        NodeView::Leaf(_) => Seq::empty(),
    }
}

/// Whether two characters are equal up to ASCII case.
pub open spec fn chars_eq_nocase(a: char, b: char) -> bool {
    ||| a == b
    ||| (65 <= a as u32 <= 90 && b as u32 == a as u32 + 32)
    ||| (65 <= b as u32 <= 90 && a as u32 == b as u32 + 32)
}

/// Whether two texts are equal up to ASCII case.
pub open spec fn texts_eq_nocase(a: Seq<char>, b: Seq<char>) -> bool {
    &&& a.len() == b.len()
    &&& forall|i: int| 0 <= i < a.len() ==> chars_eq_nocase(a[i], b[i])
}

/// Whether a child registered under `label` is selected by `token`: under
/// fuzzy matching the token must be a prefix of the label, otherwise the two
/// must be equal up to ASCII case.
pub open spec fn label_matches(label: Seq<char>, token: Seq<char>, fuzzy: bool) -> bool {
    if fuzzy {
        token.is_prefix_of(label)
    } else {
        texts_eq_nocase(label, token)
    }
}

/// How many of the children `token` selects.
pub open spec fn match_count<T>(cs: Seq<(Seq<char>, T)>, token: Seq<char>, fuzzy: bool) -> nat
    decreases cs.len(),
{
    if cs.len() == 0 {
        0
    } else {
        match_count(cs.drop_last(), token, fuzzy) + (
        if label_matches(cs.last().0, token, fuzzy) {
            1nat
        } else {
            0nat
        })
    }
}

fn char_eq_nocase(a: char, b: char) -> (r: bool)
    ensures
        r == chars_eq_nocase(a, b),
{
    let x = a as u32;
    let y = b as u32;
    a == b || (65 <= x && x <= 90 && y == x + 32) || (65 <= y && y <= 90 && x == y + 32)
}

/// Whether `a` starts with `b`, character by character.
fn text_starts_with(a: &str, b: &str) -> (r: bool)
    ensures
        r == b@.is_prefix_of(a@),
{
    let an = a.unicode_len();
    let bn = b.unicode_len();
    if bn > an {
        return false;
    }
    let mut k: usize = 0;
    while k < bn
        invariant
            k <= bn,
            bn <= an,
            an == a@.len(),
            bn == b@.len(),
            forall|i: int| 0 <= i < k ==> a@[i] == b@[i],
        decreases bn - k,
    {
        if a.get_char(k) != b.get_char(k) {
            proof {
                assert(!b@.is_prefix_of(a@)) by {
                    if b@.is_prefix_of(a@) {
                        assert(b@[k as int] == a@.subrange(0, b@.len() as int)[k as int]);
                    }
                }
            }
            return false;
        }
        k += 1;
    }
    proof {
        assert(b@ =~= a@.subrange(0, b@.len() as int));
    }
    true
}

/// Whether `a` and `b` are equal up to ASCII case, character by character.
fn text_eq_nocase(a: &str, b: &str) -> (r: bool)
    ensures
        r == texts_eq_nocase(a@, b@),
{
    let an = a.unicode_len();
    let bn = b.unicode_len();
    if an != bn {
        return false;
    }
    let mut k: usize = 0;
    while k < an
        invariant
            k <= an,
            an == a@.len(),
            bn == b@.len(),
            an == bn,
            forall|i: int| 0 <= i < k ==> chars_eq_nocase(a@[i], b@[i]),
        decreases an - k,
    {
        if !char_eq_nocase(a.get_char(k), b.get_char(k)) {
            return false;
        }
        k += 1;
    }
    true
}

/// Whether `token` selects the child labelled `label` under the active policy.
pub(crate) fn label_matches_exec(label: &String, token: &String, fuzzy: bool) -> (r: bool)
    ensures
        r == label_matches(label@, token@, fuzzy),
{
    if fuzzy {
        text_starts_with(label.as_str(), token.as_str())
    } else {
        text_eq_nocase(label.as_str(), token.as_str())
    }
}

pub(crate) proof fn lemma_match_count_take_succ<T>(
    cs: Seq<(Seq<char>, T)>,
    token: Seq<char>,
    fuzzy: bool,
    j: int,
)
    requires
        0 <= j < cs.len(),
    ensures
        match_count(cs.take(j + 1), token, fuzzy) == match_count(cs.take(j), token, fuzzy) + (
        if label_matches(cs[j].0, token, fuzzy) {
            1nat
        } else {
            0nat
        }),
{
    assert(cs.take(j + 1).drop_last() =~= cs.take(j));
    assert(cs.take(j + 1).last() == cs[j]);
}

pub(crate) proof fn lemma_match_count_take_le<T>(
    cs: Seq<(Seq<char>, T)>,
    token: Seq<char>,
    fuzzy: bool,
    m: int,
)
    requires
        0 <= m <= cs.len(),
    ensures
        match_count(cs.take(m), token, fuzzy) <= match_count(cs, token, fuzzy),
    decreases cs.len() - m,
{
    if m < cs.len() {
        lemma_match_count_take_succ(cs, token, fuzzy, m);
        lemma_match_count_take_le(cs, token, fuzzy, m + 1);
    } else {
        assert(cs.take(m) =~= cs);
    }
}

pub(crate) proof fn lemma_match_count_zero<T>(cs: Seq<(Seq<char>, T)>, token: Seq<char>, fuzzy: bool)
    requires
        match_count(cs, token, fuzzy) == 0,
    ensures
        forall|k: int| 0 <= k < cs.len() ==> !label_matches(cs[k].0, token, fuzzy),
    decreases cs.len(),
{
    if cs.len() > 0 {
        lemma_match_count_zero(cs.drop_last(), token, fuzzy);
        assert forall|k: int| 0 <= k < cs.len() implies !label_matches(
            cs[k].0,
            token,
            fuzzy,
        ) by {
            if k < cs.len() - 1 {
                assert(cs.drop_last()[k] == cs[k]);
            } else {
                assert(cs.last() == cs[k]);
            }
        }
    }
}

pub(crate) proof fn lemma_match_count_one<T>(
    cs: Seq<(Seq<char>, T)>,
    token: Seq<char>,
    fuzzy: bool,
    j: int,
)
    requires
        0 <= j < cs.len(),
        label_matches(cs[j].0, token, fuzzy),
        match_count(cs, token, fuzzy) == 1,
    ensures
        forall|k: int| 0 <= k < cs.len() && k != j ==> !label_matches(cs[k].0, token, fuzzy),
    decreases cs.len(),
{
    if j == cs.len() - 1 {
        assert(cs.last() == cs[j]);
        lemma_match_count_zero(cs.drop_last(), token, fuzzy);
        assert forall|k: int| 0 <= k < cs.len() && k != j implies !label_matches(
            cs[k].0,
            token,
            fuzzy,
        ) by {
            assert(cs.drop_last()[k] == cs[k]);
        }
    } else {
        assert(cs.drop_last()[j] == cs[j]);
        if label_matches(cs.last().0, token, fuzzy) {
            lemma_match_count_take_le(cs.drop_last(), token, fuzzy, j + 1);
            lemma_match_count_take_succ(cs.drop_last(), token, fuzzy, j);
            assert(false);
        }
        lemma_match_count_one(cs.drop_last(), token, fuzzy, j);
        assert forall|k: int| 0 <= k < cs.len() && k != j implies !label_matches(
            cs[k].0,
            token,
            fuzzy,
        ) by {
            if k < cs.len() - 1 {
                assert(cs.drop_last()[k] == cs[k]);
            } else {
                assert(cs.last() == cs[k]);
            }
        }
    }
}

/// What the dispatch walk comes to.
pub enum Outcome {
    /// A leaf bound to this action key was reached: the caller runs the key.
    Run(u64),
    /// The walk ended at a node never bound to an action: a leaf still in its
    /// unassigned state, or an internal node with no tokens left to consume.
    /// This signals a mistake in how the tree was built, not in the command;
    /// it carries the tokens remaining where the walk ended.
    Unassigned(Seq<Seq<char>>),
    /// The next token selected no child; carries the remaining tokens.
    NoMatch(Seq<Seq<char>>),
    /// The next token selected two or more children, so routing would have to
    /// pick one arbitrarily; carries the remaining tokens.
    Ambiguous(Seq<Seq<char>>),
}

/// The dispatch walk over a node shape: a leaf resolves at once, whatever
/// tokens remain; an internal node consumes the first token to select the
/// single child it matches, and fails when it matches none or several.
pub open spec fn spec_dispatch(n: NodeView, tokens: Seq<Seq<char>>, fuzzy: bool) -> Outcome
    decreases tokens.len(),
{
    match n {
        NodeView::Leaf(a) => match a {
            Some(k) => Outcome::Run(k),
            None => Outcome::Unassigned(tokens),
        },
        NodeView::Internal(cs) => {
            if tokens.len() == 0 {
                Outcome::Unassigned(tokens)
            } else {
                let m = match_count(cs, tokens[0], fuzzy);
                if m == 0 {
                    Outcome::NoMatch(tokens)
                } else if m >= 2 {
                    Outcome::Ambiguous(tokens)
                } else {
                    let j = choose|j: int|
                        0 <= j < cs.len() && label_matches(cs[j].0, tokens[0], fuzzy);
                    spec_dispatch(cs[j].1, tokens.drop_first(), fuzzy)
                }
            }
        },
    }
}

impl Node {
    /// Create a new node: a leaf in the unassigned state. Bind an action with
    /// [`Node::call`], or add subnodes with [`Node::add`].
    pub fn new() -> (n: Self)
        ensures
            n@ == NodeView::Leaf(None::<u64>),
    {
        Node { next: Next::Action(None) }
    }

    /// Append a subnode registered under `cmd`, making this node internal: a
    /// node that held an action key loses it and starts a fresh child list,
    /// while an internal node keeps its children and gains one more.
    /// Returns the new subnode, still unassigned, for chaining.
    pub fn add(&mut self, cmd: &str) -> (child: &mut Node)
        ensures
            (*child)@ == NodeView::Leaf(None::<u64>),
            final(self)@ == NodeView::Internal(
                spec_children(old(self)@).push((cmd@, (*final(child))@)),
            ),
    {
        let ghost old_children = spec_children(self@);
        if let Next::Action(_) = self.next {
            self.next = Next::Sub(Vec::new());
        }
        match &mut self.next {
            Next::Sub(v) => {
                proof {
                    assert(children_view(Seq::<(String, Node)>::empty())
                        == Seq::<(Seq<char>, NodeView)>::empty());
                    assert(children_view(v@) == old_children);
                }
                let ghost v0 = v@;
                let label = cmd.to_owned();
                let node = Node::new();
                let ghost x0 = (label, node);
                v.push((label, node));
                let child = last_child_mut(v);
                proof {
                    assert(v0.push(x0).last() == x0);
                    assert(v0.push(x0).update(
                        v0.push(x0).len() - 1,
                        (x0.0, *final(child)),
                    ) =~= v0.push((x0.0, *final(child))));
                    lemma_children_view_push(v0, (x0.0, *final(child)));
                }
                child
            },
            Next::Action(_) => vstd::pervasive::unreached(),
        }
    }

    /// Bind this node to an action key, making it a leaf. Any subnodes the
    /// node held are discarded.
    pub fn call(&mut self, action: u64)
        ensures
            final(self)@ == NodeView::Leaf(Some(action)),
    {
        self.next = Next::Action(Some(action));
    }

    /// Walk this node against the given tokens and report what the walk comes
    /// to: the action key of the leaf it reaches, or an error carrying the
    /// tokens remaining at the point of failure, concatenated. A node that
    /// was never bound to an action reports a dispatch failure rather than
    /// aborting, and an internal node reached with no tokens left does the
    /// same.
    pub fn exec(&self, cmd: &[String], match_fuzzy: bool) -> (r: Result<u64, ExecutionError>)
        ensures
            ({
                let o = spec_dispatch(self@, cmd.deep_view(), match_fuzzy);
                match r {
                    Ok(k) => o == Outcome::Run(k),
                    Err(e) => match o {
                        Outcome::Run(_) => false,
                        Outcome::Unassigned(rest) => e@ == concat_texts(rest),
                        Outcome::NoMatch(rest) => e@ == concat_texts(rest),
                        Outcome::Ambiguous(rest) => e@ == concat_texts(rest),
                    },
                }
            }),
        decreases cmd@.len(),
    {
        let ghost toks = cmd.deep_view();
        match &self.next {
            Next::Action(a) => match a {
                Some(k) => Ok(*k),
                None => Err(ExecutionError::new(cmd)),
            },
            Next::Sub(subs) => {
                let ghost cs = children_view(subs@);
                proof {
                    lemma_children_view_len(subs@);
                }
                if cmd.len() == 0 {
                    return Err(ExecutionError::new(cmd));
                }
                let token = vstd::slice::slice_index_get(cmd, 0);
                let mut found: Option<usize> = None;
                let mut j: usize = 0;
                while j < subs.len()
                    invariant
                        j <= subs@.len(),
                        cs == children_view(subs@),
                        self@ == NodeView::Internal(cs),
                        cs.len() == subs@.len(),
                        toks == cmd.deep_view(),
                        toks.len() == cmd@.len(),
                        toks.len() > 0,
                        token@ == toks[0],
                        match found {
                            None => match_count(cs.take(j as int), toks[0], match_fuzzy) == 0,
                            Some(jf) => jf < j && label_matches(cs[jf as int].0, toks[0], match_fuzzy)
                                && match_count(cs.take(j as int), toks[0], match_fuzzy) == 1,
                        },
                    decreases subs@.len() - j,
                {
                    proof {
                        lemma_children_view_index(subs@, j as int);
                        lemma_match_count_take_succ(cs, toks[0], match_fuzzy, j as int);
                    }
                    let lm = label_matches_exec(&subs[j].0, token, match_fuzzy);
                    if lm {
                        match found {
                            None => {
                                found = Some(j);
                            },
                            Some(_) => {
                                proof {
                                    lemma_match_count_take_le(cs, toks[0], match_fuzzy, j + 1);
                                }
                                return Err(ExecutionError::new(cmd));
                            },
                        }
                    }
                    j += 1;
                }
                proof {
                    assert(cs.take(subs@.len() as int) =~= cs);
                }
                match found {
                    None => {
                        proof {
                            lemma_match_count_zero(cs, toks[0], match_fuzzy);
                        }
                        Err(ExecutionError::new(cmd))
                    },
                    Some(jf) => {
                        proof {
                            lemma_match_count_one(cs, toks[0], match_fuzzy, jf as int);
                            let jstar = choose|t: int|
                                0 <= t < cs.len() && label_matches(cs[t].0, toks[0], match_fuzzy);
                            assert((jf as int) < cs.len() && label_matches(
                                cs[jf as int].0,
                                toks[0],
                                match_fuzzy,
                            ));
                            assert(jstar == jf as int);
                            lemma_children_view_index(subs@, jf as int);
                        }
                        let rest = vstd::slice::slice_subrange(cmd, 1, cmd.len());
                        proof {
                            assert(rest.deep_view() =~= toks.drop_first());
                        }
                        let sub = &subs[jf].1;
                        sub.exec(rest, match_fuzzy)
                    },
                }
            },
        }
    }
}

pub(crate) proof fn lemma_no_matches_count<T>(cs: Seq<(Seq<char>, T)>, token: Seq<char>, fuzzy: bool)
    requires
        forall|k: int| 0 <= k < cs.len() ==> !label_matches(cs[k].0, token, fuzzy),
    ensures
        match_count(cs, token, fuzzy) == 0,
    decreases cs.len(),
{
    if cs.len() > 0 {
        assert forall|k: int| 0 <= k < cs.drop_last().len() implies !label_matches(
            cs.drop_last()[k].0,
            token,
            fuzzy,
        ) by {
            assert(cs.drop_last()[k] == cs[k]);
        }
        lemma_no_matches_count(cs.drop_last(), token, fuzzy);
        assert(cs.last() == cs[cs.len() - 1]);
    }
}

pub(crate) proof fn lemma_single_match_count<T>(
    cs: Seq<(Seq<char>, T)>,
    token: Seq<char>,
    fuzzy: bool,
    j: int,
)
    requires
        0 <= j < cs.len(),
        label_matches(cs[j].0, token, fuzzy),
        forall|k: int| 0 <= k < cs.len() && k != j ==> !label_matches(cs[k].0, token, fuzzy),
    ensures
        match_count(cs, token, fuzzy) == 1,
    decreases cs.len(),
{
    assert(cs.last() == cs[cs.len() - 1]);
    if j == cs.len() - 1 {
        assert forall|k: int| 0 <= k < cs.drop_last().len() implies !label_matches(
            cs.drop_last()[k].0,
            token,
            fuzzy,
        ) by {
            assert(cs.drop_last()[k] == cs[k]);
        }
        lemma_no_matches_count(cs.drop_last(), token, fuzzy);
    } else {
        assert(cs.drop_last()[j] == cs[j]);
        assert forall|k: int|
            0 <= k < cs.drop_last().len() && k != j implies !label_matches(
            cs.drop_last()[k].0,
            token,
            fuzzy,
        ) by {
            assert(cs.drop_last()[k] == cs[k]);
        }
        lemma_single_match_count(cs.drop_last(), token, fuzzy, j);
    }
}

/// A leaf bound to an action absorbs whatever tokens remain, the walk coming
/// to exactly that action; the extra tokens change nothing.
pub proof fn lemma_leaf_absorbs(action: u64, tokens: Seq<Seq<char>>, fuzzy: bool)
    ensures
        spec_dispatch(NodeView::Leaf(Some(action)), tokens, fuzzy) == Outcome::Run(action),
{
}

/// When the next token selects no child of an internal node, the walk fails
/// at once, carrying exactly the tokens that remained, whatever the subtrees
/// below those children hold.
pub proof fn lemma_no_match_fails(
    cs: Seq<(Seq<char>, NodeView)>,
    tokens: Seq<Seq<char>>,
    fuzzy: bool,
)
    requires
        tokens.len() > 0,
        forall|k: int| 0 <= k < cs.len() ==> !label_matches(cs[k].0, tokens[0], fuzzy),
    ensures
        spec_dispatch(NodeView::Internal(cs), tokens, fuzzy) == Outcome::NoMatch(tokens),
{
    lemma_no_matches_count(cs, tokens[0], fuzzy);
}

/// When the next token selects two or more children of an internal node, the
/// walk fails as ambiguous: it never silently routes into either branch.
pub proof fn lemma_ambiguity_fails(
    cs: Seq<(Seq<char>, NodeView)>,
    tokens: Seq<Seq<char>>,
    fuzzy: bool,
    j1: int,
    j2: int,
)
    requires
        tokens.len() > 0,
        0 <= j1 < j2 < cs.len(),
        label_matches(cs[j1].0, tokens[0], fuzzy),
        label_matches(cs[j2].0, tokens[0], fuzzy),
    ensures
        spec_dispatch(NodeView::Internal(cs), tokens, fuzzy) == Outcome::Ambiguous(tokens),
{
    let token = tokens[0];
    lemma_match_count_take_succ(cs, token, fuzzy, j1);
    lemma_match_count_take_succ(cs, token, fuzzy, j2);
    assert(cs.take(j2).take(j1 + 1) =~= cs.take(j1 + 1));
    lemma_match_count_take_le(cs.take(j2), token, fuzzy, j1 + 1);
    lemma_match_count_take_le(cs, token, fuzzy, j2 + 1);
}

/// When the next token selects exactly one child of an internal node, the
/// walk consumes that token and goes on in that child with the rest, never
/// touching the other children.
pub proof fn lemma_unique_match_routes(
    cs: Seq<(Seq<char>, NodeView)>,
    tokens: Seq<Seq<char>>,
    fuzzy: bool,
    j: int,
)
    requires
        tokens.len() > 0,
        0 <= j < cs.len(),
        label_matches(cs[j].0, tokens[0], fuzzy),
        forall|k: int| 0 <= k < cs.len() && k != j ==> !label_matches(cs[k].0, tokens[0], fuzzy),
    ensures
        spec_dispatch(NodeView::Internal(cs), tokens, fuzzy) == spec_dispatch(
            cs[j].1,
            tokens.drop_first(),
            fuzzy,
        ),
{
    lemma_single_match_count(cs, tokens[0], fuzzy, j);
    let jstar = choose|t: int| 0 <= t < cs.len() && label_matches(cs[t].0, tokens[0], fuzzy);
    assert(0 <= j < cs.len() && label_matches(cs[j].0, tokens[0], fuzzy));
    assert(jstar == j);
}

impl Default for Node {
    /// Equivalent to [`Node::new`].
    fn default() -> (n: Self)
        ensures
            n@ == NodeView::Leaf(None::<u64>),
    {
        Node::new()
    }
}

} // verus!
