//! The slabs of a specification file as a tree that can be walked for its
//! focused leaves.
use crate::focustree::{
    focus_warning, leaves, leaves_each, leaves_of_all, notices, selected_leaves, survey,
    survey_each, Flag, Shaped, Survey, Tree,
};
use crate::nodule::{lemma_children_view, location_text, slabs, Nodule, Slab};
use crate::writable::Writable;
use vstd::prelude::*;
use vstd::string::StringExecFns;

verus! {

/// The number of slabs of a tree.
pub open spec fn size<'a>(nodule: Nodule<'a>) -> nat
    decreases nodule,
{
    1 + size_each(nodule.children@)
}

/// The number of slabs of the trees of a list.
pub open spec fn size_each<'a>(list: Seq<Nodule<'a>>) -> nat
    decreases list,
{
    if list.len() == 0 {
        0
    } else {
        size_each(list.drop_last()) + size(list.last())
    }
}

proof fn lemma_size_of_child<'a>(list: Seq<Nodule<'a>>, i: int)
    requires
        0 <= i < list.len(),
    ensures
        size(list[i]) <= size_each(list),
    decreases list.len(),
{
    if i < list.len() - 1 {
        lemma_size_of_child(list.drop_last(), i);
    }
}

/// The line that warns about a slab.
pub open spec fn warning_line(location: Seq<char>, message: Seq<char>) -> Seq<char> {
    "Warning("@ + location + "): "@ + message + "\n"@
}

impl<'a> Shaped for Nodule<'a> {
    open spec fn flag(&self) -> Flag {
        self.flag
    }

    open spec fn leaf(&self) -> bool {
        self.is_leaf
    }

    open spec fn children(&self) -> Seq<Self> {
        self.children@
    }

    open spec fn height(&self) -> nat {
        size(*self)
    }
}

impl<'a> Tree<Nodule<'a>> for Nodule<'a> {
    open spec fn yields(&self, value: Nodule<'a>) -> bool {
        value@ == self@
    }

    open spec fn notice(&self, message: Seq<char>) -> Seq<u8> {
        vstd::utf8::encode_utf8(
            warning_line(location_text(self@.file_path, self@.node.position), message),
        )
    }

    fn is_leaf(&self) -> (b: bool) {
        self.is_leaf
    }

    fn get_flag(&self) -> (f: Flag) {
        self.flag
    }

    fn get_children(&self) -> (c: Vec<&Self>) {
        let mut list: Vec<&Self> = Vec::new();
        let mut i: usize = 0;
        while i < self.children.len()
            invariant
                i <= self.children.len(),
                list@.len() == i,
                forall|k: int|
                    0 <= k < i ==> *(#[trigger] list@[k]) == self.children@[k] && size(*list@[k])
                        < size(*self),
            decreases self.children.len() - i,
        {
            proof {
                lemma_size_of_child(self.children@, i as int);
            }
            list.push(&self.children[i]);
            i = i + 1;
        }
        list
    }

    fn get_value(&self) -> (v: Nodule<'a>) {
        self.clone()
    }

    fn warning(&self, message: &str, stdout: &mut Writable) -> (r: Result<(), std::io::Error>) {
        let mut line = String::from_str("Warning(");
        line.append(self.get_location().as_str());
        line.append("): ");
        line.append(message);
        line.append("\n");
        stdout.write_text(line.as_str())
    }
}

/// The number of slabs of a tree.
pub open spec fn slab_size(slab: Slab) -> nat
    decreases slab,
{
    1 + slab_size_each(slab.children)
}

/// The number of slabs of the trees of a list.
pub open spec fn slab_size_each(list: Seq<Slab>) -> nat
    decreases list,
{
    if list.len() == 0 {
        0
    } else {
        slab_size_each(list.drop_last()) + slab_size(list.last())
    }
}

impl Shaped for Slab {
    open spec fn flag(&self) -> Flag {
        self.flag
    }

    open spec fn leaf(&self) -> bool {
        self.is_leaf
    }

    open spec fn children(&self) -> Seq<Self> {
        self.children
    }

    open spec fn height(&self) -> nat {
        slab_size(*self)
    }
}

/// The bytes that the warnings about the slabs of `warned` add to a buffer,
/// in order.
pub open spec fn slab_notices(warned: Seq<Slab>) -> Seq<u8>
    decreases warned.len(),
{
    if warned.len() == 0 {
        Seq::empty()
    } else {
        slab_notices(warned.drop_last()) + vstd::utf8::encode_utf8(
            warning_line(
                location_text(warned.last().file_path, warned.last().node.position),
                focus_warning(),
            ),
        )
    }
}

pub proof fn lemma_slab_size_of_child(list: Seq<Slab>, i: int)
    requires
        0 <= i < list.len(),
    ensures
        slab_size(list[i]) <= slab_size_each(list),
    decreases list.len(),
{
    if i < list.len() - 1 {
        lemma_slab_size_of_child(list.drop_last(), i);
    }
}

/// The survey of a tree of nodules and the survey of its view say the same.
pub open spec fn same_survey<'a>(of_nodules: Survey<Nodule<'a>>, of_slabs: Survey<Slab>) -> bool {
    &&& slabs(of_nodules.focused) == of_slabs.focused
    &&& slabs(of_nodules.warned) == of_slabs.warned
    &&& of_nodules.focus_count == of_slabs.focus_count
    &&& of_nodules.skip_count == of_slabs.skip_count
}

/// The children of a nodule are lower than the nodule, and so are their
/// views.
proof fn lemma_children_lower<'a>(nodule: Nodule<'a>)
    ensures
        nodule@.children == slabs(nodule.children@),
        forall|i: int|
            0 <= i < nodule.children@.len() ==> size(#[trigger] nodule.children@[i]) < size(
                nodule,
            ),
        forall|i: int|
            0 <= i < nodule.children@.len() ==> slab_size(#[trigger] nodule@.children[i])
                < slab_size(nodule@),
{
    lemma_children_view(nodule);
    assert forall|i: int| 0 <= i < nodule.children@.len() implies size(
        #[trigger] nodule.children@[i],
    ) < size(nodule) by {
        lemma_size_of_child(nodule.children@, i);
    }
    assert forall|i: int| 0 <= i < nodule.children@.len() implies slab_size(
        #[trigger] nodule@.children[i],
    ) < slab_size(nodule@) by {
        lemma_slab_size_of_child(nodule@.children, i);
    }
}

pub proof fn lemma_survey_view<'a>(nodule: Nodule<'a>)
    ensures
        same_survey(survey::<Nodule<'a>>(nodule), survey::<Slab>(nodule@)),
    decreases size(nodule), 1nat, 0nat,
{
    lemma_children_lower(nodule);
    if nodule.flag != Flag::Skip {
        lemma_survey_each_view(nodule.children@, size(nodule), slab_size(nodule@));
        let below = survey_each::<Nodule<'a>>(nodule.children@, size(nodule));
        assert(slabs(seq![nodule]) =~= seq![nodule@]);
        assert(slabs(below.warned.push(nodule)) =~= slabs(below.warned).push(nodule@));
    } else {
        assert(slabs(Seq::<Nodule<'a>>::empty()) =~= Seq::<Slab>::empty());
    }
}

pub proof fn lemma_survey_each_view<'a>(list: Seq<Nodule<'a>>, bound: nat, slab_bound: nat)
    requires
        forall|i: int| 0 <= i < list.len() ==> size(#[trigger] list[i]) < bound,
        forall|i: int| 0 <= i < list.len() ==> slab_size(#[trigger] slabs(list)[i]) < slab_bound,
    ensures
        same_survey(
            survey_each::<Nodule<'a>>(list, bound),
            survey_each::<Slab>(slabs(list), slab_bound),
        ),
    decreases bound, 0nat, list.len(),
{
    if list.len() == 0 {
        assert(slabs(Seq::<Nodule<'a>>::empty()) =~= Seq::<Slab>::empty());
    } else {
        assert(slabs(list).drop_last() =~= slabs(list.drop_last()));
        assert(slabs(list).last() == list.last()@);
        assert forall|i: int| 0 <= i < list.drop_last().len() implies slab_size(
            #[trigger] slabs(list.drop_last())[i],
        ) < slab_bound by {
            assert(slabs(list.drop_last())[i] == slabs(list)[i]);
        }
        lemma_survey_each_view(list.drop_last(), bound, slab_bound);
        lemma_survey_view(list.last());
        let before = survey_each::<Nodule<'a>>(list.drop_last(), bound);
        let last = survey::<Nodule<'a>>(list.last());
        assert(slabs(before.focused + last.focused) =~= slabs(before.focused) + slabs(
            last.focused,
        ));
        assert(slabs(before.warned + last.warned) =~= slabs(before.warned) + slabs(last.warned));
    }
}

pub proof fn lemma_leaves_view<'a>(nodule: Nodule<'a>)
    ensures
        slabs(leaves::<Nodule<'a>>(nodule)) == leaves::<Slab>(nodule@),
    decreases size(nodule), 1nat, 0nat,
{
    lemma_children_lower(nodule);
    if nodule.flag != Flag::Skip {
        lemma_leaves_each_view(nodule.children@, size(nodule), slab_size(nodule@));
        let below = leaves_each::<Nodule<'a>>(nodule.children@, size(nodule));
        assert(slabs(seq![nodule] + below) =~= seq![nodule@] + slabs(below));
    } else {
        assert(slabs(Seq::<Nodule<'a>>::empty()) =~= Seq::<Slab>::empty());
    }
}

pub proof fn lemma_leaves_each_view<'a>(list: Seq<Nodule<'a>>, bound: nat, slab_bound: nat)
    requires
        forall|i: int| 0 <= i < list.len() ==> size(#[trigger] list[i]) < bound,
        forall|i: int| 0 <= i < list.len() ==> slab_size(#[trigger] slabs(list)[i]) < slab_bound,
    ensures
        slabs(leaves_each::<Nodule<'a>>(list, bound)) == leaves_each::<Slab>(
            slabs(list),
            slab_bound,
        ),
    decreases bound, 0nat, list.len(),
{
    if list.len() == 0 {
        assert(slabs(Seq::<Nodule<'a>>::empty()) =~= Seq::<Slab>::empty());
    } else {
        assert(slabs(list).drop_last() =~= slabs(list.drop_last()));
        assert(slabs(list).last() == list.last()@);
        assert forall|i: int| 0 <= i < list.drop_last().len() implies slab_size(
            #[trigger] slabs(list.drop_last())[i],
        ) < slab_bound by {
            assert(slabs(list.drop_last())[i] == slabs(list)[i]);
        }
        lemma_leaves_each_view(list.drop_last(), bound, slab_bound);
        lemma_leaves_view(list.last());
        let before = leaves_each::<Nodule<'a>>(list.drop_last(), bound);
        let last = leaves::<Nodule<'a>>(list.last());
        assert(slabs(before + last) =~= slabs(before) + slabs(last));
    }
}

pub proof fn lemma_leaves_of_all_view<'a>(list: Seq<Nodule<'a>>)
    ensures
        slabs(leaves_of_all::<Nodule<'a>>(list)) == leaves_of_all::<Slab>(slabs(list)),
    decreases list.len(),
{
    if list.len() == 0 {
        assert(slabs(Seq::<Nodule<'a>>::empty()) =~= Seq::<Slab>::empty());
    } else {
        assert(slabs(list).drop_last() =~= slabs(list.drop_last()));
        assert(slabs(list).last() == list.last()@);
        lemma_leaves_of_all_view(list.drop_last());
        lemma_leaves_view(list.last());
        let before = leaves_of_all::<Nodule<'a>>(list.drop_last());
        let last = leaves::<Nodule<'a>>(list.last());
        assert(slabs(before + last) =~= slabs(before) + slabs(last));
    }
}

/// The leaves selected in a tree of nodules are those selected in its view.
pub proof fn lemma_selected_view<'a>(nodule: Nodule<'a>)
    ensures
        slabs(selected_leaves::<Nodule<'a>>(nodule)) == selected_leaves::<Slab>(nodule@),
{
    lemma_survey_view(nodule);
    lemma_leaves_view(nodule);
    lemma_leaves_of_all_view(survey::<Nodule<'a>>(nodule).focused);
}

/// The warnings about nodules add the same bytes as those about their views.
pub proof fn lemma_notices_view<'a>(warned: Seq<Nodule<'a>>)
    ensures
        notices::<Nodule<'a>, Nodule<'a>>(warned) == slab_notices(slabs(warned)),
    decreases warned.len(),
{
    if warned.len() > 0 {
        assert(slabs(warned).drop_last() =~= slabs(warned.drop_last()));
        assert(slabs(warned).last() == warned.last()@);
        lemma_notices_view(warned.drop_last());
    }
}

} // verus!
