//! Walks a tree whose nodes may be flagged to be skipped or focused, and
//! collects the values of the leaves that are selected.
//!
//! A skipped node hides its whole subtree. A focused node without focused
//! descendants is an *effective* focus: once there is one anywhere in the tree,
//! only the leaves below effective focuses are selected. Without any, every
//! leaf that is not hidden is selected.
use crate::writable::Writable;
use vstd::prelude::*;

verus! {

#[derive(Debug, Default, Clone, Copy, PartialEq, Eq, Hash, Structural)]
pub enum Flag {
    #[default]
    Unset,
    Skip,
    Focus,
}

/// How many flagged nodes a walk has met. Both counters stop at `u64::MAX`.
#[derive(Debug, Clone, Copy, PartialEq, Eq, Structural)]
pub struct FlagStat {
    pub focus_count: u64,
    pub skip_count: u64,
}

impl Default for FlagStat {
    fn default() -> (stat: FlagStat)
        ensures
            stat.focus_count == 0,
            stat.skip_count == 0,
    {
        FlagStat { focus_count: 0, skip_count: 0 }
    }
}

/// A counter that has reached `u64::MAX` stays there.
pub open spec fn capped(n: int) -> u64 {
    if n >= u64::MAX {
        u64::MAX
    } else if n <= 0 {
        0
    } else {
        n as u64
    }
}

/// The warning issued for a focused node that has focused descendants.
pub open spec fn focus_warning() -> Seq<char> {
    "A node with focused descendants is itself focused. It has been considered not focused in favor of its focused descendants"@
}

/// The shape of a tree, as far as the selection of its leaves goes. Each item
/// has a default for a node of which nothing is said; an implementation that
/// is verified states its own.
pub trait Shaped: Sized {
    /// The flag of this node.
    open spec fn flag(&self) -> Flag {
        Flag::Unset
    }

    /// Whether this node is a leaf.
    open spec fn leaf(&self) -> bool {
        true
    }

    /// The children of this node, in order.
    open spec fn children(&self) -> Seq<Self> {
        Seq::empty()
    }

    /// A bound on the depth of the tree below this node: trees are finite, and
    /// every child is strictly lower than its parent.
    open spec fn height(&self) -> nat {
        0
    }
}

/// A node of a tree, as its users implement it.
pub trait Tree<TValue>: Shaped {
    /// Whether `value` is what this node hands out as its value.
    open spec fn yields(&self, value: TValue) -> bool {
        true
    }

    /// The bytes that a warning about this node adds to a buffer.
    open spec fn notice(&self, message: Seq<char>) -> Seq<u8> {
        Seq::empty()
    }

    /// returns true if the current node is a leaf.
    fn is_leaf(&self) -> (b: bool)
        ensures
            b == self.leaf(),
    ;

    /// returns the flag of the current node, if any.
    fn get_flag(&self) -> (f: Flag)
        ensures
            f == self.flag(),
    ;

    /// returns the children of the current node.
    fn get_children(&self) -> (c: Vec<&Self>)
        ensures
            c@.len() == self.children().len(),
            forall|i: int|
                0 <= i < c@.len() ==> *(#[trigger] c@[i]) == self.children()[i] && c@[i].height()
                    < self.height(),
    ;

    /// returns the value of the current node.
    fn get_value(&self) -> (v: TValue)
        ensures
            self.yields(v),
    ;

    /// a function that is called when some unexpected situation occurs
    /// during the traversal of the current node. The message goes to the sink;
    /// a buffer always takes it.
    fn warning(&self, message: &str, stdout: &mut Writable) -> (r: Result<(), std::io::Error>)
        ensures
            r is Ok ==> final(stdout).follows(*old(stdout), self.notice(message@)),
            r is Err ==> *final(stdout) is Out,
            *old(stdout) is Vec ==> r is Ok,
    ;
}

/// What a post-order walk gathers from a subtree.
pub struct Survey<T> {
    /// The effective focuses, in post-order.
    pub focused: Seq<T>,
    /// The focused nodes that were passed over for their focused descendants,
    /// in post-order.
    pub warned: Seq<T>,
    /// The number of focused nodes outside skipped subtrees.
    pub focus_count: nat,
    /// The number of skipped nodes that were reached.
    pub skip_count: nat,
}

impl<T> Survey<T> {
    pub open spec fn nothing() -> Survey<T> {
        Survey { focused: Seq::empty(), warned: Seq::empty(), focus_count: 0, skip_count: 0 }
    }

    pub open spec fn followed_by(self, next: Survey<T>) -> Survey<T> {
        Survey {
            focused: self.focused + next.focused,
            warned: self.warned + next.warned,
            focus_count: self.focus_count + next.focus_count,
            skip_count: self.skip_count + next.skip_count,
        }
    }
}

/// The survey of the subtree rooted at `t`.
pub open spec fn survey<T: Shaped>(t: T) -> Survey<T>
    decreases t.height(), 1nat, 0nat,
{
    if t.flag() == Flag::Skip {
        Survey { focused: Seq::empty(), warned: Seq::empty(), focus_count: 0, skip_count: 1 }
    } else {
        let below = survey_each::<T>(t.children(), t.height());
        if t.flag() == Flag::Focus {
            if below.focused.len() == 0 {
                Survey {
                    focused: seq![t],
                    warned: below.warned,
                    focus_count: below.focus_count + 1,
                    skip_count: below.skip_count,
                }
            } else {
                Survey {
                    focused: below.focused,
                    warned: below.warned.push(t),
                    focus_count: below.focus_count + 1,
                    skip_count: below.skip_count,
                }
            }
        } else {
            below
        }
    }
}

/// The surveys of the trees of `ts` that are lower than `bound`, one after the
/// other. The children of a node are all lower than the node.
pub open spec fn survey_each<T: Shaped>(ts: Seq<T>, bound: nat) -> Survey<T>
    decreases bound, 0nat, ts.len(),
{
    if ts.len() == 0 {
        Survey::nothing()
    } else if ts.last().height() < bound {
        survey_each::<T>(ts.drop_last(), bound).followed_by(survey::<T>(ts.last()))
    } else {
        survey_each::<T>(ts.drop_last(), bound)
    }
}

/// The leaves of the subtree rooted at `t` that no skipped node hides, in
/// pre-order.
pub open spec fn leaves<T: Shaped>(t: T) -> Seq<T>
    decreases t.height(), 1nat, 0nat,
{
    if t.flag() == Flag::Skip {
        Seq::empty()
    } else if t.leaf() {
        seq![t] + leaves_each::<T>(t.children(), t.height())
    } else {
        leaves_each::<T>(t.children(), t.height())
    }
}

/// The leaves of the trees of `ts` that are lower than `bound`, tree by tree.
pub open spec fn leaves_each<T: Shaped>(ts: Seq<T>, bound: nat) -> Seq<T>
    decreases bound, 0nat, ts.len(),
{
    if ts.len() == 0 {
        Seq::empty()
    } else if ts.last().height() < bound {
        leaves_each::<T>(ts.drop_last(), bound) + leaves::<T>(ts.last())
    } else {
        leaves_each::<T>(ts.drop_last(), bound)
    }
}

/// The leaves of each tree of `ts`, tree by tree.
pub open spec fn leaves_of_all<T: Shaped>(ts: Seq<T>) -> Seq<T>
    decreases ts.len(),
{
    if ts.len() == 0 {
        Seq::empty()
    } else {
        leaves_of_all::<T>(ts.drop_last()) + leaves::<T>(ts.last())
    }
}

/// The leaves that are selected in the tree rooted at `t`: those below its
/// effective focuses, or all of them where nothing is focused.
pub open spec fn selected_leaves<T: Shaped>(t: T) -> Seq<T> {
    let focused = survey::<T>(t).focused;
    if focused.len() == 0 {
        leaves::<T>(t)
    } else {
        leaves_of_all::<T>(focused)
    }
}

/// The bytes that the warnings about `ts` add to a buffer, in order.
pub open spec fn notices<V, T: Tree<V>>(ts: Seq<T>) -> Seq<u8>
    decreases ts.len(),
{
    if ts.len() == 0 {
        Seq::empty()
    } else {
        notices::<V, T>(ts.drop_last()) + ts.last().notice(focus_warning())
    }
}

/// The nodes that the references of `refs` point to.
pub open spec fn pointees<T>(refs: Seq<&T>) -> Seq<T> {
    Seq::new(refs.len(), |i: int| *refs[i])
}

/// `after` is `before` followed by the values that the nodes of `nodes` hand
/// out, in order.
pub open spec fn grown_by<V, T: Tree<V>>(before: Seq<V>, after: Seq<V>, nodes: Seq<T>) -> bool {
    &&& after.len() == before.len() + nodes.len()
    &&& forall|i: int| 0 <= i < before.len() ==> #[trigger] after[i] == before[i]
    &&& forall|j: int|
        0 <= j < nodes.len() ==> (#[trigger] nodes[j]).yields(after[before.len() + j])
}

proof fn lemma_grown_twice<V, T: Tree<V>>(
    a: Seq<V>,
    b: Seq<V>,
    c: Seq<V>,
    first: Seq<T>,
    second: Seq<T>,
)
    requires
        grown_by::<V, T>(a, b, first),
        grown_by::<V, T>(b, c, second),
    ensures
        grown_by::<V, T>(a, c, first + second),
{
    let both = first + second;
    assert forall|j: int| 0 <= j < both.len() implies (#[trigger] both[j]).yields(
        c[a.len() + j],
    ) by {
        if j < first.len() {
            assert(first[j].yields(b[a.len() + j]));
            assert(c[a.len() + j] == b[a.len() + j]);
        } else {
            assert(second[j - first.len()].yields(c[b.len() + (j - first.len())]));
        }
    }
}

proof fn lemma_notices_concat<V, T: Tree<V>>(a: Seq<T>, b: Seq<T>)
    ensures
        notices::<V, T>(a + b) == notices::<V, T>(a) + notices::<V, T>(b),
    decreases b.len(),
{
    if b.len() == 0 {
        assert(a + b =~= a);
        assert(notices::<V, T>(a) + notices::<V, T>(b) =~= notices::<V, T>(a));
    } else {
        lemma_notices_concat::<V, T>(a, b.drop_last());
        assert((a + b).drop_last() =~= a + b.drop_last());
        assert((a + b).last() == b.last());
        assert(notices::<V, T>(a + b) =~= notices::<V, T>(a) + notices::<V, T>(b));
    }
}

/// Adds one to a counter that stops at `u64::MAX`.
pub fn bump(count: u64) -> (next: u64)
    ensures
        next == capped(count + 1),
{
    if count < u64::MAX {
        count + 1
    } else {
        count
    }
}

/// This function is used to find the nodes that are focused. If a node
/// has focused descendants and is itself focused, then it is considered
/// not focused and a warning is issued.
///
/// The effective focuses of the subtree are appended in post-order, the
/// counters are raised by the flagged nodes met, and the sink takes one warning
/// for each focused node that was passed over. Only the standard output can
/// fail, and the walk stops there.
pub fn extract_focused_nodes<'a, TValue, T: Tree<TValue>>(
    tree: &'a T,
    focused_node_vec: &mut Vec<&'a T>,
    flag_stat: &mut FlagStat,
    stdout: &mut Writable,
) -> (r: Result<(), std::io::Error>)
    ensures
        r is Ok ==> ({
            let s = survey::<T>(*tree);
            &&& pointees(final(focused_node_vec)@) == pointees(old(focused_node_vec)@) + s.focused
            &&& final(flag_stat).focus_count == capped(old(flag_stat).focus_count + s.focus_count)
            &&& final(flag_stat).skip_count == capped(old(flag_stat).skip_count + s.skip_count)
            &&& final(stdout).follows(*old(stdout), notices::<TValue, T>(s.warned))
        }),
        *old(stdout) is Vec ==> r is Ok,
        r is Err ==> *final(stdout) is Out,
    decreases tree.height(),
{
    if tree.get_flag() == Flag::Skip {
        flag_stat.skip_count = bump(flag_stat.skip_count);
        assert(pointees(focused_node_vec@) =~= pointees(old(focused_node_vec)@) + Seq::<T>::empty());
        assert(stdout.held() =~= old(stdout).held() + Seq::<u8>::empty());
        return Ok(());
    }
    let initial_length = focused_node_vec.len();
    let children = tree.get_children();
    let mut i: usize = 0;
    assert(tree.children().take(0) =~= Seq::<T>::empty());
    assert(pointees(focused_node_vec@) =~= pointees(old(focused_node_vec)@) + Seq::<T>::empty());
    assert(stdout.held() =~= old(stdout).held() + Seq::<u8>::empty());
    while i < children.len()
        invariant
            i <= children.len(),
            children@.len() == tree.children().len(),
            forall|k: int|
                0 <= k < children@.len() ==> *(#[trigger] children@[k]) == tree.children()[k]
                    && children@[k].height() < tree.height(),
            ({
                let s = survey_each::<T>(tree.children().take(i as int), tree.height());
                &&& pointees(focused_node_vec@) == pointees(old(focused_node_vec)@) + s.focused
                &&& flag_stat.focus_count == capped(old(flag_stat).focus_count + s.focus_count)
                &&& flag_stat.skip_count == capped(old(flag_stat).skip_count + s.skip_count)
                &&& stdout.follows(*old(stdout), notices::<TValue, T>(s.warned))
            }),
        decreases children.len() - i,
    {
        let ghost done = survey_each::<T>(tree.children().take(i as int), tree.height());
        let ghost child = tree.children()[i as int];
        let ghost found = pointees(focused_node_vec@);
        let ghost sink = *stdout;
        match extract_focused_nodes(children[i], focused_node_vec, flag_stat, stdout) {
            Ok(()) => {},
            Err(e) => {
                return Err(e);
            },
        }
        proof {
            let prefix = tree.children().take(i as int + 1);
            assert(prefix.drop_last() =~= tree.children().take(i as int));
            assert(prefix.last() == child);
            let s = survey::<T>(child);
            assert(survey_each::<T>(prefix, tree.height()) == done.followed_by(s));
            assert(pointees(focused_node_vec@) =~= pointees(old(focused_node_vec)@) + (done.focused
                + s.focused));
            lemma_notices_concat::<TValue, T>(done.warned, s.warned);
            if *old(stdout) is Vec {
                assert(sink.held() == old(stdout).held() + notices::<TValue, T>(done.warned));
                assert(stdout.held() == sink.held() + notices::<TValue, T>(s.warned));
                assert(stdout.held() =~= old(stdout).held() + (notices::<TValue, T>(done.warned)
                    + notices::<TValue, T>(s.warned)));
            }
        }
        i = i + 1;
    }
    assert(tree.children().take(i as int) =~= tree.children());
    let ghost below = survey_each::<T>(tree.children(), tree.height());
    if tree.get_flag() == Flag::Focus {
        flag_stat.focus_count = bump(flag_stat.focus_count);
        if focused_node_vec.len() <= initial_length {
            let ghost found = pointees(focused_node_vec@);
            focused_node_vec.push(tree);
            assert(below.focused.len() == 0);
            assert(pointees(focused_node_vec@) =~= pointees(old(focused_node_vec)@) + seq![*tree]);
        } else {
            let ghost sink = *stdout;
            assert(below.focused.len() > 0);
            match tree.warning(
                "A node with focused descendants is itself focused. It has been considered not focused in favor of its focused descendants",
                stdout,
            ) {
                Ok(()) => {},
                Err(e) => {
                    return Err(e);
                },
            }
            proof {
                let warned = below.warned.push(*tree);
                assert(warned.drop_last() =~= below.warned);
                if *old(stdout) is Vec {
                    assert(sink.held() == old(stdout).held() + notices::<TValue, T>(below.warned));
                    assert(stdout.held() == sink.held() + tree.notice(focus_warning()));
                    assert(stdout.held() =~= old(stdout).held() + notices::<TValue, T>(warned));
                }
            }
        }
    }
    Ok(())
}

/// This function produces the synthesis of the values of the leaves of
/// the node it receives: the values of the leaves that no skipped node hides
/// are appended in pre-order.
pub fn get_leaf_values<TValue, T: Tree<TValue>>(tree: &T, value_vec: &mut Vec<TValue>)
    ensures
        grown_by::<TValue, T>(old(value_vec)@, final(value_vec)@, leaves::<T>(*tree)),
    decreases tree.height(),
{
    if tree.get_flag() == Flag::Skip {
        return ;
    }
    if tree.is_leaf() {
        value_vec.push(tree.get_value());
    }
    let ghost own: Seq<T> = if tree.leaf() {
        seq![*tree]
    } else {
        Seq::empty()
    };
    let children = tree.get_children();
    let mut i: usize = 0;
    assert(tree.children().take(0) =~= Seq::<T>::empty());
    assert(own + Seq::<T>::empty() =~= own);
    while i < children.len()
        invariant
            i <= children.len(),
            children@.len() == tree.children().len(),
            forall|k: int|
                0 <= k < children@.len() ==> *(#[trigger] children@[k]) == tree.children()[k]
                    && children@[k].height() < tree.height(),
            grown_by::<TValue, T>(
                old(value_vec)@,
                value_vec@,
                own + leaves_each::<T>(tree.children().take(i as int), tree.height()),
            ),
        decreases children.len() - i,
    {
        let ghost done = leaves_each::<T>(tree.children().take(i as int), tree.height());
        let ghost child = tree.children()[i as int];
        let ghost values = value_vec@;
        get_leaf_values(children[i], value_vec);
        proof {
            let prefix = tree.children().take(i as int + 1);
            assert(prefix.drop_last() =~= tree.children().take(i as int));
            assert(prefix.last() == child);
            lemma_grown_twice::<TValue, T>(
                old(value_vec)@,
                values,
                value_vec@,
                own + done,
                leaves::<T>(child),
            );
            assert((own + done) + leaves::<T>(child) =~= own + (done + leaves::<T>(
                child,
            )));
        }
        i = i + 1;
    }
    assert(tree.children().take(i as int) =~= tree.children());
}

/// This function calls `extract_focused_nodes`. If no node is focused, it
/// considers that the root of the tree is focused. It then calls
/// `get_leaf_values` on all the focused nodes, filling the destination vec.
///
/// The destination receives the values of the selected leaves, in order. Where
/// the sink fails, nothing is appended.
pub fn extract_focused_leaf_values<TValue, T: Tree<TValue>>(
    tree: &T,
    destination: &mut Vec<TValue>,
    flag_stat: &mut FlagStat,
    stdout: &mut Writable,
) -> (r: Result<(), std::io::Error>)
    ensures
        r is Ok ==> ({
            let s = survey::<T>(*tree);
            &&& grown_by::<TValue, T>(
                old(destination)@,
                final(destination)@,
                selected_leaves::<T>(*tree),
            )
            &&& final(flag_stat).focus_count == capped(old(flag_stat).focus_count + s.focus_count)
            &&& final(flag_stat).skip_count == capped(old(flag_stat).skip_count + s.skip_count)
            &&& final(stdout).follows(*old(stdout), notices::<TValue, T>(s.warned))
        }),
        *old(stdout) is Vec ==> r is Ok,
        r is Err ==> *final(stdout) is Out && final(destination)@ == old(destination)@,
{
    let mut focused_node_vec: Vec<&T> = Vec::new();
    match extract_focused_nodes(tree, &mut focused_node_vec, flag_stat, stdout) {
        Ok(()) => {},
        Err(e) => {
            return Err(e);
        },
    }
    assert(pointees(focused_node_vec@) =~= survey::<T>(*tree).focused);
    if focused_node_vec.is_empty() {
        get_leaf_values(tree, destination);
        return Ok(());
    }
    let ghost focused = pointees(focused_node_vec@);
    let mut i: usize = 0;
    assert(focused.take(0) =~= Seq::<T>::empty());
    while i < focused_node_vec.len()
        invariant
            i <= focused_node_vec.len(),
            focused == pointees(focused_node_vec@),
            grown_by::<TValue, T>(
                old(destination)@,
                destination@,
                leaves_of_all::<T>(focused.take(i as int)),
            ),
        decreases focused_node_vec.len() - i,
    {
        let ghost values = destination@;
        get_leaf_values(focused_node_vec[i], destination);
        proof {
            let prefix = focused.take(i as int + 1);
            assert(prefix.drop_last() =~= focused.take(i as int));
            assert(prefix.last() == *focused_node_vec@[i as int]);
            lemma_grown_twice::<TValue, T>(
                old(destination)@,
                values,
                destination@,
                leaves_of_all::<T>(focused.take(i as int)),
                leaves::<T>(*focused_node_vec@[i as int]),
            );
        }
        i = i + 1;
    }
    assert(focused.take(i as int) =~= focused);
    Ok(())
}

/// `x` is reached from `t` along a path on which no node is skipped, `t` and
/// `x` included.
pub open spec fn reached_unskipped<T: Shaped>(t: T, x: T) -> bool
    decreases t.height(),
{
    t.flag() != Flag::Skip && (x == t || exists|i: int|
        0 <= i < t.children().len() && (#[trigger] t.children()[i]).height() < t.height()
            && reached_unskipped::<T>(t.children()[i], x))
}

/// A focused node none of whose descendants counts as focused.
pub open spec fn effective_focus<T: Shaped>(f: T) -> bool {
    f.flag() == Flag::Focus && survey_each::<T>(f.children(), f.height()).focus_count == 0
}

proof fn lemma_reached_twice<T: Shaped>(t: T, f: T, x: T)
    requires
        reached_unskipped::<T>(t, f),
        reached_unskipped::<T>(f, x),
    ensures
        reached_unskipped::<T>(t, x),
    decreases t.height(),
{
    if f != t {
        let i = choose|i: int|
            0 <= i < t.children().len() && (#[trigger] t.children()[i]).height() < t.height()
                && reached_unskipped::<T>(t.children()[i], f);
        lemma_reached_twice::<T>(t.children()[i], f, x);
    }
}

proof fn lemma_focus_counted<T: Shaped>(t: T)
    ensures
        survey::<T>(t).focused.len() == 0 <==> survey::<T>(t).focus_count == 0,
    decreases t.height(), 1nat, 0nat,
{
    if t.flag() != Flag::Skip {
        lemma_focus_counted_each::<T>(t.children(), t.height());
    }
}

proof fn lemma_focus_counted_each<T: Shaped>(ts: Seq<T>, bound: nat)
    ensures
        survey_each::<T>(ts, bound).focused.len() == 0 <==> survey_each::<T>(
            ts,
            bound,
        ).focus_count == 0,
    decreases bound, 0nat, ts.len(),
{
    if ts.len() > 0 {
        lemma_focus_counted_each::<T>(ts.drop_last(), bound);
        if ts.last().height() < bound {
            lemma_focus_counted::<T>(ts.last());
        }
    }
}

/// What holds of each node that a survey of `t` reports as an effective focus.
spec fn focus_found<T: Shaped>(t: T, f: T) -> bool {
    &&& reached_unskipped::<T>(t, f)
    &&& effective_focus::<T>(f)
    &&& f.height() <= t.height()
}

proof fn lemma_focused<T: Shaped>(t: T, k: int)
    requires
        0 <= k < survey::<T>(t).focused.len(),
    ensures
        focus_found::<T>(t, survey::<T>(t).focused[k]),
    decreases t.height(), 1nat, 0nat,
{
    let below = survey_each::<T>(t.children(), t.height());
    if t.flag() == Flag::Focus && below.focused.len() == 0 {
        lemma_focus_counted_each::<T>(t.children(), t.height());
    } else {
        let j = lemma_focused_each::<T>(t.children(), t.height(), k);
    }
}

proof fn lemma_focused_each<T: Shaped>(ts: Seq<T>, bound: nat, k: int) -> (j: int)
    requires
        0 <= k < survey_each::<T>(ts, bound).focused.len(),
    ensures
        0 <= j < ts.len(),
        ts[j].height() < bound,
        focus_found::<T>(ts[j], survey_each::<T>(ts, bound).focused[k]),
    decreases bound, 0nat, ts.len(),
{
    let before = survey_each::<T>(ts.drop_last(), bound);
    if ts.last().height() < bound && k >= before.focused.len() {
        lemma_focused::<T>(ts.last(), k - before.focused.len());
        ts.len() - 1
    } else {
        lemma_focused_each::<T>(ts.drop_last(), bound, k)
    }
}

proof fn lemma_leaf_reached<T: Shaped>(t: T, k: int)
    requires
        0 <= k < leaves::<T>(t).len(),
    ensures
        reached_unskipped::<T>(t, leaves::<T>(t)[k]),
    decreases t.height(), 1nat, 0nat,
{
    if t.leaf() && k == 0 {
    } else {
        let shift: int = if t.leaf() {
            1
        } else {
            0
        };
        let j = lemma_leaf_reached_each::<T>(t.children(), t.height(), k - shift);
    }
}

proof fn lemma_leaf_reached_each<T: Shaped>(ts: Seq<T>, bound: nat, k: int) -> (j: int)
    requires
        0 <= k < leaves_each::<T>(ts, bound).len(),
    ensures
        0 <= j < ts.len(),
        ts[j].height() < bound,
        reached_unskipped::<T>(ts[j], leaves_each::<T>(ts, bound)[k]),
    decreases bound, 0nat, ts.len(),
{
    let before = leaves_each::<T>(ts.drop_last(), bound);
    if ts.last().height() < bound && k >= before.len() {
        lemma_leaf_reached::<T>(ts.last(), k - before.len());
        ts.len() - 1
    } else {
        lemma_leaf_reached_each::<T>(ts.drop_last(), bound, k)
    }
}

proof fn lemma_leaf_of_all<T: Shaped>(fs: Seq<T>, k: int) -> (j: int)
    requires
        0 <= k < leaves_of_all::<T>(fs).len(),
    ensures
        0 <= j < fs.len(),
        reached_unskipped::<T>(fs[j], leaves_of_all::<T>(fs)[k]),
    decreases fs.len(),
{
    let before = leaves_of_all::<T>(fs.drop_last());
    if k >= before.len() {
        lemma_leaf_reached::<T>(fs.last(), k - before.len());
        fs.len() - 1
    } else {
        lemma_leaf_of_all::<T>(fs.drop_last(), k)
    }
}

/// Skip pruning: every selected leaf is reached from the root along a path on
/// which no node is skipped, so none comes out of a skipped subtree.
pub proof fn law_skip_pruning<T: Shaped>(root: T, k: int)
    requires
        0 <= k < selected_leaves::<T>(root).len(),
    ensures
        reached_unskipped::<T>(root, selected_leaves::<T>(root)[k]),
{
    let focused = survey::<T>(root).focused;
    if focused.len() == 0 {
        lemma_leaf_reached::<T>(root, k);
    } else {
        let j = lemma_leaf_of_all::<T>(focused, k);
        lemma_focused::<T>(root, j);
        lemma_reached_twice::<T>(root, focused[j], selected_leaves::<T>(root)[k]);
    }
}

/// Focus semantics, where something is focused: the survey reports at least
/// one effective focus, each of them is a focused node without focused
/// descendants, and the selected leaves are those below them and no others.
pub proof fn law_focus_selects<T: Shaped>(root: T)
    requires
        survey::<T>(root).focus_count > 0,
    ensures
        survey::<T>(root).focused.len() > 0,
        forall|j: int|
            0 <= j < survey::<T>(root).focused.len() ==> effective_focus::<T>(
                #[trigger] survey::<T>(root).focused[j],
            ),
        selected_leaves::<T>(root) == leaves_of_all::<T>(survey::<T>(root).focused),
{
    lemma_focus_counted::<T>(root);
    let focused = survey::<T>(root).focused;
    assert forall|j: int| 0 <= j < focused.len() implies effective_focus::<T>(
        #[trigger] focused[j],
    ) by {
        lemma_focused::<T>(root, j);
    }
}

/// Focus semantics, where nothing is focused: every leaf that no skipped node
/// hides is selected.
pub proof fn law_no_focus_selects_all<T: Shaped>(root: T)
    requires
        survey::<T>(root).focus_count == 0,
    ensures
        selected_leaves::<T>(root) == leaves::<T>(root),
{
    lemma_focus_counted::<T>(root);
}

/// Focus over focus: a focused node with a focused descendant is not reported
/// as an effective focus. The effective focuses below it are reported in its
/// place, and it is the last node warned about.
pub proof fn law_focus_over_focus<T: Shaped>(t: T)
    requires
        t.flag() == Flag::Focus,
        survey_each::<T>(t.children(), t.height()).focus_count > 0,
    ensures
        !survey::<T>(t).focused.contains(t),
        survey::<T>(t).focused == survey_each::<T>(t.children(), t.height()).focused,
        survey::<T>(t).warned.len() > 0,
        survey::<T>(t).warned.last() == t,
{
    lemma_focus_counted_each::<T>(t.children(), t.height());
    let focused = survey::<T>(t).focused;
    if focused.contains(t) {
        let k = choose|k: int| 0 <= k < focused.len() && focused[k] == t;
        let j = lemma_focused_each::<T>(t.children(), t.height(), k);
    }
}

} // verus!
