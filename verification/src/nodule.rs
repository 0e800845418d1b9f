//! The slabs of a specification file: one for each mapping of its documents,
//! with the flag that it sets, the data matrix that it hands to its tiles, and
//! the slabs of its `content`.
use crate::file::File;
use crate::flag::{flag_of_text, notes_of_text, read_flag};
use crate::focustree::Flag;
use crate::multistringmap::{
    distinct_keys, filled, overlaid, texts, Entry, MultiStringMap,
};
use crate::text::{decimal, digits};
use crate::yaml::{
    documents_of, key_position, lemma_key_position, lemma_list_view, lemma_mapping_view,
    node_pairs, nodes, same_text, value_under, yaml_scan, Node, Position, Value, Yaml, YamlData,
    YamlLoader,
};
use vstd::prelude::*;
use vstd::string::{StrSliceExecFns, StringExecFns};

verus! {

/// What can be wrong with the shape of a document.
#[derive(Clone, Copy, Debug, PartialEq, Eq, Structural)]
pub enum Fault {
    /// The root of a document is no mapping.
    RootNotMapping,
    /// An item of a `content` list is no mapping.
    NodeNotMapping,
    /// The value of `flag` is no string.
    FlagNotString,
    /// The value of `content` is no list.
    ContentNotList,
    /// A key of a mapping is no string.
    KeyNotString,
    /// A list of alternatives is empty.
    EmptySequence,
    /// An alternative is no string.
    ItemNotString,
    /// The value of an entry is neither a string nor a list.
    ValueNotText,
}

/// A fault, with the file and the position of the node that is to blame, and
/// with the key of the entry where the fault is in a value.
pub struct Blame {
    pub fault: Fault,
    pub file_path: Seq<char>,
    pub position: Position,
    pub key: Seq<char>,
}

/// A fault in the shape of a document. It ends the run.
#[derive(Clone, Debug, PartialEq, Eq)]
pub struct SchemaError {
    pub fault: Fault,
    pub file_path: String,
    pub position: Position,
    /// The key of the entry to blame, or nothing where a node is.
    pub key: String,
}

impl View for SchemaError {
    type V = Blame;

    open spec fn view(&self) -> Blame {
        Blame {
            fault: self.fault,
            file_path: self.file_path@,
            position: self.position,
            key: self.key@,
        }
    }
}

/// What there is to say of a fault.
pub open spec fn fault_text(fault: Fault) -> Seq<char> {
    match fault {
        Fault::RootNotMapping => "The root node of the YAML test data file must be a mapping."@,
        Fault::NodeNotMapping => "the content descendant nodes must be yaml mappings"@,
        Fault::FlagNotString => "The flag value must be a string."@,
        Fault::ContentNotList => "the value associated with the content keyword must be a sequence of mappings"@,
        Fault::KeyNotString => "the keys of the mapping nodes must be strings"@,
        Fault::EmptySequence => "when the values of the mapping nodes is a sequence, it must not be empty."@,
        Fault::ItemNotString => "when the values of the mapping nodes is a sequence, it must be a sequence of strings only."@,
        Fault::ValueNotText => "the values of mapping nodes must be strings or sequences."@,
    }
}

/// The diagnostic of a fault: what it is, where it is, and the key of the
/// entry to blame where there is one.
pub open spec fn blame_text(blame: Blame) -> Seq<char> {
    fault_text(blame.fault) + " ("@ + location_text(blame.file_path, blame.position) + (if blame.key.len()
        > 0 {
        ", key: "@ + blame.key
    } else {
        Seq::empty()
    }) + ")"@
}

impl Fault {
    /// What there is to say of the fault.
    pub fn message(&self) -> (text: &'static str)
        ensures
            text@ == fault_text(*self),
    {
        match self {
            Fault::RootNotMapping => "The root node of the YAML test data file must be a mapping.",
            Fault::NodeNotMapping => "the content descendant nodes must be yaml mappings",
            Fault::FlagNotString => "The flag value must be a string.",
            Fault::ContentNotList => "the value associated with the content keyword must be a sequence of mappings",
            Fault::KeyNotString => "the keys of the mapping nodes must be strings",
            Fault::EmptySequence => "when the values of the mapping nodes is a sequence, it must not be empty.",
            Fault::ItemNotString => "when the values of the mapping nodes is a sequence, it must be a sequence of strings only.",
            Fault::ValueNotText => "the values of mapping nodes must be strings or sequences.",
        }
    }
}

impl SchemaError {
    /// The diagnostic of the fault.
    pub fn describe(&self) -> (text: String)
        ensures
            text@ == blame_text(self@),
    {
        let mut text = String::from_str(self.fault.message());
        text.append(" (");
        text.append(self.file_path.as_str());
        text.append(":");
        text.append(decimal(self.position.line as u128).as_str());
        text.append(":");
        text.append(decimal(self.position.column as u128).as_str());
        if self.key.as_str().unicode_len() > 0 {
            text.append(", key: ");
            text.append(self.key.as_str());
        }
        text.append(")");
        proof {
            let place = location_text(self@.file_path, self@.position);
            assert(text@ =~= blame_text(self@));
        }
        text
    }
}

/// A slab as a mathematical value.
pub struct Slab {
    pub node: Node,
    pub flag: Flag,
    pub is_leaf: bool,
    pub file_path: Seq<char>,
    pub data_matrix: Seq<Entry>,
    pub children: Seq<Slab>,
}

#[derive(Debug)]
pub struct Nodule<'a> {
    pub node: &'a Yaml,
    pub flag: Flag,
    pub is_leaf: bool,
    pub file_path: String,
    pub data_matrix: MultiStringMap,
    pub children: Vec<Nodule<'a>>,
}

impl<'a> View for Nodule<'a> {
    type V = Slab;

    open spec fn view(&self) -> Slab
        decreases self,
    {
        Slab {
            node: (*self.node)@,
            flag: self.flag,
            is_leaf: self.is_leaf,
            file_path: self.file_path@,
            data_matrix: self.data_matrix@,
            children: Seq::new(
                self.children@.len(),
                |i: int|
                    if 0 <= i < self.children@.len() {
                        self.children@[i]@
                    } else {
                        arbitrary()
                    },
            ),
        }
    }
}

/// The slabs of a list of nodules.
pub open spec fn slabs<'a>(list: Seq<Nodule<'a>>) -> Seq<Slab> {
    Seq::new(list.len(), |i: int| list[i]@)
}

pub proof fn lemma_children_view<'a>(nodule: Nodule<'a>)
    ensures
        nodule@.children == slabs(nodule.children@),
{
    reveal_with_fuel(<Nodule<'_> as View>::view, 2);
    assert(nodule@.children =~= slabs(nodule.children@));
}

/// The index of the first failure of a list of results, or its length where
/// there is none.
pub open spec fn first_failure<T, E>(results: Seq<Result<T, E>>) -> int
    decreases results.len(),
{
    if results.len() == 0 {
        0
    } else if results[0] is Err {
        0
    } else {
        1 + first_failure(results.drop_first())
    }
}

/// What the results hold where all of them are successes.
pub open spec fn successes<T, E>(results: Seq<Result<T, E>>) -> Seq<T> {
    Seq::new(results.len(), |i: int| results[i]->Ok_0)
}

/// Lists put one after the other.
pub open spec fn flat<A>(lists: Seq<Seq<A>>) -> Seq<A>
    decreases lists.len(),
{
    if lists.len() == 0 {
        Seq::empty()
    } else {
        flat(lists.drop_last()) + lists.last()
    }
}

/// The flag that a mapping sets: that of the text under `flag`. A mapping
/// without that key, or with a bad value under it, sets none.
pub open spec fn flag_of(node: Node) -> Flag {
    match value_under(node.value, Value::Text("flag"@)) {
        Some(entry) => match entry.value {
            Value::Text(text) => flag_of_text(text),
            _ => Flag::Unset,
        },
        None => Flag::Unset,
    }
}

/// The warnings that the flag of a mapping gives rise to.
pub open spec fn flag_notes(node: Node) -> Seq<Seq<char>> {
    match value_under(node.value, Value::Text("flag"@)) {
        Some(entry) => match entry.value {
            Value::Text(text) => notes_of_text(text),
            _ => Seq::empty(),
        },
        None => Seq::empty(),
    }
}

/// The slab that stands for a node, with its descendants, before any matrix
/// is handed down: the slab of a document starts with `seed` as its matrix,
/// the others with nothing. Or the first fault met on the way down.
///
/// A node that is no mapping is a fault, and so is a flag that is neither a
/// string nor a bad value. A slab that is flagged to be skipped keeps no
/// children. Otherwise the slab has one child for each item of the list under
/// `content`, and is a leaf where there is no such key; a `content` that is
/// no list is a fault.
pub open spec fn built(node: Node, path: Seq<char>, seed: Seq<Entry>) -> Result<Slab, Blame>
    decreases node,
{
    match node.value {
        Value::Mapping(pairs) => {
            let flag_entry = value_under(node.value, Value::Text("flag"@));
            if flag_entry is Some && !(flag_entry->Some_0.value is BadValue) && !(
            flag_entry->Some_0.value is Text) {
                Err(
                    Blame {
                        fault: Fault::FlagNotString,
                        file_path: path,
                        position: flag_entry->Some_0.position,
                        key: Seq::empty(),
                    },
                )
            } else {
                let leaf = Slab {
                    node,
                    flag: flag_of(node),
                    is_leaf: true,
                    file_path: path,
                    data_matrix: seed,
                    children: Seq::empty(),
                };
                let at = key_position(pairs, Value::Text("content"@));
                if flag_of(node) == Flag::Skip || !(0 <= at < pairs.len()) {
                    Ok(leaf)
                } else {
                    match pairs[at].1.value {
                        Value::List(items) => {
                            let results = built_each(items, path);
                            if first_failure(results) < results.len() {
                                Err(results[first_failure(results)]->Err_0)
                            } else {
                                Ok(Slab { is_leaf: false, children: successes(results), ..leaf })
                            }
                        },
                        _ => Err(
                            Blame {
                                fault: Fault::ContentNotList,
                                file_path: path,
                                position: pairs[at].1.position,
                                key: Seq::empty(),
                            },
                        ),
                    }
                }
            }
        },
        _ => Err(
            Blame {
                fault: Fault::NodeNotMapping,
                file_path: path,
                position: node.position,
                key: Seq::empty(),
            },
        ),
    }
}

/// What is built for each node of a list, the nodes being items of a
/// `content` list.
pub open spec fn built_each(items: Seq<Node>, path: Seq<char>) -> Seq<Result<Slab, Blame>>
    decreases items,
{
    Seq::new(
        items.len(),
        |i: int|
            if 0 <= i < items.len() {
                built(items[i], path, Seq::empty())
            } else {
                arbitrary()
            },
    )
}

/// The warnings for each node of a list.
pub open spec fn notes_each(items: Seq<Node>) -> Seq<Seq<Seq<char>>>
    decreases items,
{
    Seq::new(
        items.len(),
        |i: int|
            if 0 <= i < items.len() {
                notes_of(items[i])
            } else {
                arbitrary()
            },
    )
}

/// The warnings that the flags of a node and of its descendants give rise to,
/// in the order in which the slabs are built: a slab before its children.
pub open spec fn notes_of(node: Node) -> Seq<Seq<char>>
    decreases node,
{
    match node.value {
        Value::Mapping(pairs) => {
            let at = key_position(pairs, Value::Text("content"@));
            if flag_of(node) == Flag::Skip || !(0 <= at < pairs.len()) {
                flag_notes(node)
            } else {
                match pairs[at].1.value {
                    Value::List(items) => flag_notes(node) + flat(notes_each(items)),
                    _ => flag_notes(node),
                }
            }
        },
        _ => Seq::empty(),
    }
}

pub proof fn lemma_first_failure<T, E>(results: Seq<Result<T, E>>)
    ensures
        0 <= first_failure(results) <= results.len(),
        first_failure(results) < results.len() ==> results[first_failure(results)] is Err,
        forall|i: int| 0 <= i < first_failure(results) ==> (#[trigger] results[i]) is Ok,
    decreases results.len(),
{
    if results.len() > 0 && results[0] is Ok {
        lemma_first_failure(results.drop_first());
        assert forall|i: int| 0 <= i < first_failure(results) implies (
        #[trigger] results[i]) is Ok by {
            if i > 0 {
                assert(results[i] == results.drop_first()[i - 1]);
            }
        }
    }
}

/// The first failure is where the first failure is.
pub proof fn lemma_first_failure_at<T, E>(results: Seq<Result<T, E>>, at: int)
    requires
        0 <= at <= results.len(),
        forall|i: int| 0 <= i < at ==> (#[trigger] results[i]) is Ok,
        at < results.len() ==> results[at] is Err,
    ensures
        first_failure(results) == at,
{
    lemma_first_failure(results);
}

pub proof fn lemma_flat_push<A>(lists: Seq<Seq<A>>, list: Seq<A>)
    ensures
        flat(lists.push(list)) == flat(lists) + list,
{
    assert(lists.push(list).drop_last() =~= lists);
}

impl<'a> Nodule<'a> {
    /// A slab that has not looked into its node yet.
    pub open spec fn untouched(&self) -> bool {
        &&& self.flag == Flag::Unset
        &&& self.is_leaf
        &&& self.children@.len() == 0
    }

    // The initialization creates all the nodules which correspond to the
    // mapping nodes of the yaml tree, except for the PENDING nodes. It fills
    // the fields `flag`, `is_leaf` and `children`. **It expects `node` and
    // `file_path` to be already set**, and it sets them for its children.
    fn initalize_tree(&mut self, warnings: &mut Vec<String>) -> (r: Result<(), SchemaError>)
        requires
            old(self).untouched(),
        ensures
            match r {
                Ok(()) => built(old(self)@.node, old(self)@.file_path, old(self)@.data_matrix)
                    == Ok::<Slab, Blame>(final(self)@) && texts(final(warnings)@) == texts(
                    old(warnings)@,
                ) + notes_of(old(self)@.node),
                Err(e) => built(old(self)@.node, old(self)@.file_path, old(self)@.data_matrix)
                    == Err::<Slab, Blame>(e@),
            },
        decreases old(self)@.node,
    {
        let node: &'a Yaml = self.node;
        let ghost path = self.file_path@;
        let ghost seed = self.data_matrix@;
        let ghost before = texts(warnings@);
        proof {
            lemma_children_view(*self);
            assert(self@.children =~= Seq::<Slab>::empty());
        }
        match &node.data {
            YamlData::Mapping(_) => {},
            _ => {
                return Err(
                    SchemaError {
                        fault: Fault::NodeNotMapping,
                        file_path: self.file_path.clone(),
                        position: node.position,
                        key: String::new(),
                    },
                );
            },
        }
        let ghost pairs = node@.value->Mapping_0;

        match node.data.get("flag") {
            Some(flag_node) => {
                if !flag_node.data.is_badvalue() {
                    match &flag_node.data {
                        YamlData::String(_) => {
                            self.flag = read_flag(flag_node, warnings);
                        },
                        _ => {
                            return Err(
                                SchemaError {
                                    fault: Fault::FlagNotString,
                                    file_path: self.file_path.clone(),
                                    position: flag_node.position,
                                    key: String::new(),
                                },
                            );
                        },
                    }
                }
            },
            None => {},
        }
        assert(self.flag == flag_of(node@));
        assert(texts(warnings@) =~= before + flag_notes(node@));
        proof {
            lemma_children_view(*self);
            assert(self@.children =~= Seq::<Slab>::empty());
        }
        if self.flag == Flag::Skip {
            return Ok(());
        }
        proof {
            lemma_key_position(pairs, Value::Text("content"@));
        }
        let content_node = match node.data.get("content") {
            Some(content_node) => content_node,
            None => {
                return Ok(());
            },
        };
        self.is_leaf = false;
        let ghost at = key_position(pairs, Value::Text("content"@));
        assert(content_node@ == pairs[at].1);
        let yaml_vec = match &content_node.data {
            YamlData::List(yaml_vec) => yaml_vec,
            _ => {
                return Err(
                    SchemaError {
                        fault: Fault::ContentNotList,
                        file_path: self.file_path.clone(),
                        position: content_node.position,
                        key: String::new(),
                    },
                );
            },
        };
        let ghost items = content_node@.value->List_0;
        let ghost results = built_each(items, path);
        let ghost notes = notes_each(items);
        proof {
            reveal_with_fuel(built_each, 2);
            reveal_with_fuel(notes_each, 2);
            crate::yaml::lemma_list_view(*yaml_vec);
            assert(items =~= crate::yaml::nodes(yaml_vec@));
            assert(notes.take(0) =~= Seq::<Seq<Seq<char>>>::empty());
            assert(texts(warnings@) =~= before + flag_notes(node@) + flat(notes.take(0)));
        }
        let mut children: Vec<Nodule<'a>> = Vec::new();
        let mut i: usize = 0;
        while i < yaml_vec.len()
            invariant
                i <= yaml_vec.len(),
                items == crate::yaml::nodes(yaml_vec@),
                items == pairs[at].1.value->List_0,
                pairs[at].1.value is List,
                node@.value == Value::Mapping(pairs),
                0 <= at < pairs.len(),
                path == self.file_path@,
                results.len() == items.len(),
                notes.len() == items.len(),
                forall|k: int|
                    0 <= k < items.len() ==> #[trigger] results[k] == built(
                        items[k],
                        path,
                        Seq::empty(),
                    ),
                forall|k: int| 0 <= k < items.len() ==> #[trigger] notes[k] == notes_of(items[k]),
                children@.len() == i,
                forall|k: int|
                    0 <= k < i ==> #[trigger] results[k] == Ok::<Slab, Blame>(children@[k]@),
                texts(warnings@) == before + flag_notes(node@) + flat(notes.take(i as int)),
                old(self)@.node == node@,
                old(self)@.file_path == path,
                results == built_each(items, path),
                at == key_position(pairs, Value::Text("content"@)),
                flag_of(node@) != Flag::Skip,
                ({
                    let flag_entry = value_under(node@.value, Value::Text("flag"@));
                    !(flag_entry is Some && !(flag_entry->Some_0.value is BadValue) && !(
                    flag_entry->Some_0.value is Text))
                }),
            decreases yaml_vec.len() - i,
        {
            let mut n = Nodule {
                node: &yaml_vec[i],
                flag: Flag::Unset,
                is_leaf: true,
                file_path: self.file_path.clone(),
                children: Vec::new(),
                data_matrix: MultiStringMap::new(),
            };
            let ghost held = texts(warnings@);
            match n.initalize_tree(warnings) {
                Ok(()) => {},
                Err(e) => {
                    proof {
                        assert(results[i as int] == Err::<Slab, Blame>(e@));
                        lemma_first_failure_at(results, i as int);
                    }
                    return Err(e);
                },
            }
            children.push(n);
            proof {
                assert(results[i as int] == Ok::<Slab, Blame>(children@[i as int]@));
                assert(notes.take(i as int + 1) =~= notes.take(i as int).push(notes[i as int]));
                lemma_flat_push(notes.take(i as int), notes[i as int]);
                assert(texts(warnings@) =~= before + flag_notes(node@) + flat(
                    notes.take(i as int + 1),
                ));
            }
            i = i + 1;
        }
        proof {
            lemma_first_failure_at(results, results.len() as int);
            assert(notes.take(i as int) =~= notes);
            assert(slabs(children@) =~= successes(results));
        }
        self.children = children;
        proof {
            lemma_children_view(*self);
        }
        Ok(())
    }
}

/// The keys of a mapping that say something of the slab itself and add
/// nothing to its matrix.
pub open spec fn reserved(key: Seq<char>) -> bool {
    key == "flag"@ || key == "content"@ || key == "about"@
}

/// The texts of a list of nodes that are strings.
pub open spec fn item_texts(items: Seq<Node>) -> Seq<Seq<char>> {
    Seq::new(items.len(), |i: int| items[i].value->Text_0)
}

/// The alternatives that the value of an entry stands for: a string is its
/// own single alternative, and a list of strings that is not empty gives one
/// alternative for each string. Anything else is a fault.
pub open spec fn alternatives(value: Value) -> Result<Seq<Seq<char>>, Fault> {
    match value {
        Value::Text(text) => Ok(seq![text]),
        Value::List(items) => {
            if items.len() == 0 {
                Err(Fault::EmptySequence)
            } else if forall|i: int| 0 <= i < items.len() ==> (#[trigger] items[i]).value is Text {
                Ok(item_texts(items))
            } else {
                Err(Fault::ItemNotString)
            }
        },
        _ => Err(Fault::ValueNotText),
    }
}

/// A matrix overlaid, one after the other, by the entries of a mapping that
/// are not reserved. The first entry that is at fault ends it: the fault is
/// given with the key of the entry, which is empty where the key itself is no
/// string.
pub open spec fn with_entries(matrix: Seq<Entry>, pairs: Seq<(Node, Node)>) -> Result<
    Seq<Entry>,
    (Fault, Seq<char>),
>
    decreases pairs.len(),
{
    if pairs.len() == 0 {
        Ok(matrix)
    } else {
        match with_entries(matrix, pairs.drop_last()) {
            Err(fault) => Err(fault),
            Ok(so_far) => match pairs.last().0.value {
                Value::Text(key) => {
                    if reserved(key) {
                        Ok(so_far)
                    } else {
                        match alternatives(pairs.last().1.value) {
                            Ok(values) => Ok(overlaid(so_far, key, values)),
                            Err(fault) => Err((fault, key)),
                        }
                    }
                },
                _ => Err((Fault::KeyNotString, Seq::empty())),
            },
        }
    }
}

/// A slab and its descendants, each with its matrix: the matrix of a slab is
/// the one handed down to it, overlaid by the entries of its own mapping, and
/// it is what the slab hands down to its children. Or the first fault met on
/// the way down.
pub open spec fn populated(slab: Slab, inherited: Seq<Entry>) -> Result<Slab, Blame>
    decreases slab,
{
    match slab.node.value {
        Value::Mapping(pairs) => match with_entries(inherited, pairs) {
            Err((fault, key)) => Err(
                Blame { fault, file_path: slab.file_path, position: slab.node.position, key },
            ),
            Ok(matrix) => {
                let results = populated_each(slab.children, matrix);
                if first_failure(results) < results.len() {
                    Err(results[first_failure(results)]->Err_0)
                } else {
                    Ok(Slab { data_matrix: matrix, children: successes(results), ..slab })
                }
            },
        },
        _ => Err(
            Blame {
                fault: Fault::NodeNotMapping,
                file_path: slab.file_path,
                position: slab.node.position,
                key: Seq::empty(),
            },
        ),
    }
}

/// Each slab of a list with the matrix that is handed down to it.
pub open spec fn populated_each(children: Seq<Slab>, inherited: Seq<Entry>) -> Seq<
    Result<Slab, Blame>,
>
    decreases children,
{
    Seq::new(
        children.len(),
        |i: int|
            if 0 <= i < children.len() {
                populated(children[i], inherited)
            } else {
                arbitrary()
            },
    )
}

/// Every matrix of the tree is well-formed: no key twice, no list of
/// alternatives empty.
pub open spec fn sound(slab: Slab) -> bool
    decreases slab,
{
    &&& distinct_keys(slab.data_matrix)
    &&& filled(slab.data_matrix)
    &&& forall|i: int| 0 <= i < slab.children.len() ==> sound(#[trigger] slab.children[i])
}

proof fn lemma_with_entries_sound(matrix: Seq<Entry>, pairs: Seq<(Node, Node)>)
    requires
        distinct_keys(matrix),
        filled(matrix),
    ensures
        with_entries(matrix, pairs) matches Ok(result) ==> distinct_keys(result) && filled(result),
    decreases pairs.len(),
{
    if pairs.len() > 0 {
        lemma_with_entries_sound(matrix, pairs.drop_last());
        if with_entries(matrix, pairs.drop_last()) is Ok && pairs.last().0.value is Text {
            let so_far = with_entries(matrix, pairs.drop_last())->Ok_0;
            let key = pairs.last().0.value->Text_0;
            if !reserved(key) && alternatives(pairs.last().1.value) is Ok {
                let values = alternatives(pairs.last().1.value)->Ok_0;
                crate::multistringmap::lemma_overlaid_keeps_keys(so_far, key, values);
            }
        }
    }
}

/// Matrix inheritance: where a slab is given its matrix, that matrix is the
/// one handed down to it, overlaid by the entries of its own mapping, the
/// reserved keys left out; each of its children is given its matrix from that
/// one in the same way; and no matrix of the tree has a key twice or an empty
/// list of alternatives.
pub proof fn law_matrix_inheritance(slab: Slab, inherited: Seq<Entry>)
    requires
        distinct_keys(inherited),
        filled(inherited),
        populated(slab, inherited) is Ok,
    ensures
        slab.node.value is Mapping,
        with_entries(inherited, slab.node.value->Mapping_0) == Ok::<Seq<Entry>, (Fault, Seq<char>)>(
            populated(slab, inherited)->Ok_0.data_matrix,
        ),
        populated(slab, inherited)->Ok_0.children.len() == slab.children.len(),
        forall|i: int|
            0 <= i < slab.children.len() ==> populated(
                #[trigger] slab.children[i],
                populated(slab, inherited)->Ok_0.data_matrix,
            ) == Ok::<Slab, Blame>(populated(slab, inherited)->Ok_0.children[i]),
        sound(populated(slab, inherited)->Ok_0),
    decreases slab,
{
    let pairs = slab.node.value->Mapping_0;
    let matrix = with_entries(inherited, pairs)->Ok_0;
    let results = populated_each(slab.children, matrix);
    lemma_with_entries_sound(inherited, pairs);
    lemma_first_failure(results);
    reveal_with_fuel(populated_each, 2);
    let done = populated(slab, inherited)->Ok_0;
    assert forall|i: int| 0 <= i < done.children.len() implies sound(
        #[trigger] done.children[i],
    ) by {
        assert(results[i] is Ok);
        law_matrix_inheritance(slab.children[i], matrix);
    }
}

/// Where a node was read: the path of its file, its line and its column.
pub open spec fn location_text(path: Seq<char>, position: Position) -> Seq<char> {
    path + ":"@ + digits(position.line as nat) + ":"@ + digits(position.column as nat)
}

/// The matrix that the slab of a document starts from: the path of its file.
pub open spec fn seed_matrix(path: Seq<char>) -> Seq<Entry> {
    seq![("filepath"@, seq![path])]
}

/// The slab of a document, whose root has to be a mapping.
pub open spec fn root_built(document: Node, path: Seq<char>) -> Result<Slab, Blame> {
    if document.value is Mapping {
        built(document, path, seed_matrix(path))
    } else {
        Err(
            Blame {
                fault: Fault::RootNotMapping,
                file_path: path,
                position: document.position,
                key: Seq::empty(),
            },
        )
    }
}

/// What is built for each document of a file.
pub open spec fn roots_built(documents: Seq<Node>, path: Seq<char>) -> Seq<Result<Slab, Blame>> {
    Seq::new(documents.len(), |i: int| root_built(documents[i], path))
}

/// The warnings for each document of a file.
pub open spec fn root_notes(documents: Seq<Node>) -> Seq<Seq<Seq<char>>> {
    Seq::new(documents.len(), |i: int| notes_of(documents[i]))
}

/// The documents that a file contributes: those of its content, or none where
/// the content cannot be read as YAML.
pub open spec fn loaded(content: Seq<char>) -> Seq<Node> {
    match yaml_scan(content) {
        Ok(events) => documents_of(events),
        Err(_) => Seq::empty(),
    }
}

/// What there is to say of a file whose content cannot be read: one line,
/// with the path of the file and the words of the parser.
pub open spec fn load_notes(path: Seq<char>, content: Seq<char>) -> Seq<Seq<char>> {
    match yaml_scan(content) {
        Ok(_) => Seq::empty(),
        Err(failure) => seq![path + ": "@ + failure.0],
    }
}

/// Reads the alternatives that the value of an entry stands for.
fn read_alternatives(value: &Yaml) -> (r: Result<Vec<String>, Fault>)
    ensures
        match r {
            Ok(values) => alternatives(value@.value) == Ok::<Seq<Seq<char>>, Fault>(texts(values@)),
            Err(fault) => alternatives(value@.value) == Err::<Seq<Seq<char>>, Fault>(fault),
        },
{
    match &value.data {
        YamlData::String(s) => {
            let mut values: Vec<String> = Vec::new();
            values.push(s.clone());
            assert(texts(values@) =~= seq![s@]);
            Ok(values)
        },
        YamlData::List(a) => {
            proof {
                lemma_list_view(*a);
            }
            if a.len() == 0 {
                return Err(Fault::EmptySequence);
            }
            let mut values: Vec<String> = Vec::new();
            let mut i: usize = 0;
            while i < a.len()
                invariant
                    i <= a.len(),
                    a.len() > 0,
                    value@.value == Value::List(nodes(a@)),
                    values@.len() == i,
                    forall|k: int| 0 <= k < i ==> (#[trigger] nodes(a@)[k]).value is Text,
                    forall|k: int|
                        0 <= k < i ==> (#[trigger] values@[k])@ == nodes(a@)[k].value->Text_0,
                decreases a.len() - i,
            {
                match &a[i].data {
                    YamlData::String(s) => {
                        values.push(s.clone());
                    },
                    _ => {
                        assert(!(nodes(a@)[i as int].value is Text));
                        return Err(Fault::ItemNotString);
                    },
                }
                assert(nodes(a@)[i as int].value is Text);
                i = i + 1;
            }
            assert(texts(values@) =~= item_texts(nodes(a@)));
            Ok(values)
        },
        _ => Err(Fault::ValueNotText),
    }
}

/// Whether a key is one of those that add nothing to the matrix.
fn is_reserved(key: &str) -> (b: bool)
    ensures
        b == reserved(key@),
{
    same_text(key, "flag") || same_text(key, "content") || same_text(key, "about")
}

impl<'a> Clone for Nodule<'a> {
    fn clone(&self) -> (copy: Nodule<'a>)
        ensures
            copy@ == self@,
        decreases self,
    {
        let mut children: Vec<Nodule<'a>> = Vec::new();
        let mut i: usize = 0;
        while i < self.children.len()
            invariant
                i <= self.children.len(),
                children@.len() == i,
                forall|k: int| 0 <= k < i ==> (#[trigger] children@[k])@ == self.children@[k]@,
            decreases self.children.len() - i,
        {
            proof {
                assert(decreases_to!(*self => self.children@[i as int]));
            }
            children.push(self.children[i].clone());
            i = i + 1;
        }
        let copy = Nodule {
            node: self.node,
            flag: self.flag,
            is_leaf: self.is_leaf,
            file_path: self.file_path.clone(),
            data_matrix: self.data_matrix.clone(),
            children,
        };
        proof {
            lemma_children_view(*self);
            lemma_children_view(copy);
            assert(slabs(copy.children@) =~= slabs(self.children@));
        }
        copy
    }
}

impl<'a> Nodule<'a> {
    /// Builds the slabs of the documents of a file, one for each document and
    /// in their order, and adds to `warnings` what their flags give rise to.
    /// The first fault met ends it.
    pub fn parse_documents(
        file_path: &str,
        documents: &'a Vec<Yaml>,
        warnings: &mut Vec<String>,
    ) -> (r: Result<Vec<Nodule<'a>>, SchemaError>)
        ensures
            match r {
                Ok(list) => {
                    let results = roots_built(nodes(documents@), file_path@);
                    &&& first_failure(results) == results.len()
                    &&& slabs(list@) == successes(results)
                    &&& texts(final(warnings)@) == texts(old(warnings)@) + flat(
                        root_notes(nodes(documents@)),
                    )
                },
                Err(e) => {
                    let results = roots_built(nodes(documents@), file_path@);
                    &&& first_failure(results) < results.len()
                    &&& results[first_failure(results)] == Err::<Slab, Blame>(e@)
                },
            },
    {
        let ghost results = roots_built(nodes(documents@), file_path@);
        let ghost notes = root_notes(nodes(documents@));
        let ghost before = texts(warnings@);
        let mut list: Vec<Nodule<'a>> = Vec::new();
        let mut i: usize = 0;
        proof {
            assert(notes.take(0) =~= Seq::<Seq<Seq<char>>>::empty());
            assert(texts(warnings@) =~= before + flat(notes.take(0)));
        }
        while i < documents.len()
            invariant
                i <= documents.len(),
                results == roots_built(nodes(documents@), file_path@),
                notes == root_notes(nodes(documents@)),
                list@.len() == i,
                forall|k: int| 0 <= k < i ==> #[trigger] results[k] == Ok::<Slab, Blame>(list@[k]@),
                texts(warnings@) == before + flat(notes.take(i as int)),
            decreases documents.len() - i,
        {
            let node = &documents[i];
            match node.data {
                YamlData::Mapping(_) => {},
                _ => {
                    proof {
                        lemma_first_failure_at(results, i as int);
                    }
                    return Err(
                        SchemaError {
                            fault: Fault::RootNotMapping,
                            file_path: file_path.to_owned(),
                            position: node.position,
                            key: String::new(),
                        },
                    );
                },
            }
            let mut data_matrix = MultiStringMap::new();
            let mut paths: Vec<String> = Vec::new();
            paths.push(file_path.to_owned());
            data_matrix.insert("filepath".to_owned(), paths);
            proof {
                assert(texts(paths@) =~= seq![file_path@]);
                assert(data_matrix@ =~= seed_matrix(file_path@));
            }
            let mut n = Nodule {
                node,
                flag: Flag::Unset,
                is_leaf: true,
                file_path: file_path.to_owned(),
                data_matrix,
                children: Vec::new(),
            };
            match n.initalize_tree(warnings) {
                Ok(()) => {},
                Err(e) => {
                    proof {
                        lemma_first_failure_at(results, i as int);
                    }
                    return Err(e);
                },
            }
            list.push(n);
            proof {
                assert(notes.take(i as int + 1) =~= notes.take(i as int).push(notes[i as int]));
                lemma_flat_push(notes.take(i as int), notes[i as int]);
                assert(texts(warnings@) =~= before + flat(notes.take(i as int + 1)));
            }
            i = i + 1;
        }
        proof {
            lemma_first_failure_at(results, results.len() as int);
            assert(notes.take(i as int) =~= notes);
            assert(slabs(list@) =~= successes(results));
        }
        Ok(list)
    }

    /// Reads the documents of a file. A file whose content cannot be read as
    /// YAML has no document, and `warnings` is told so.
    pub fn load_documents(file: &File, warnings: &mut Vec<String>) -> (documents: Vec<Yaml>)
        ensures
            nodes(documents@) == loaded(file.content@),
            texts(final(warnings)@) == texts(old(warnings)@) + load_notes(
                file.path@,
                file.content@,
            ),
    {
        let ghost before = texts(warnings@);
        match YamlLoader::load_from_str(file.content.as_str()) {
            Ok(v) => {
                assert(texts(warnings@) =~= before + load_notes(file.path@, file.content@));
                v
            },
            Err(e) => {
                let mut line = file.path.clone();
                line.append(": ");
                line.append(e.message.as_str());
                warnings.push(line);
                let documents: Vec<Yaml> = Vec::new();
                assert(nodes(documents@) =~= Seq::<Node>::empty());
                assert(texts(warnings@) =~= before + load_notes(file.path@, file.content@));
                documents
            },
        }
    }

    /// Reads the documents of a file into `store` and builds their slabs. A
    /// file whose content cannot be read as YAML contributes no document, and
    /// `warnings` is told so; the warnings about flags follow.
    pub fn parse_file(file: &File, store: &'a mut Vec<Yaml>, warnings: &mut Vec<String>) -> (r:
        Result<Vec<Nodule<'a>>, SchemaError>)
        ensures
            nodes(final(store)@) == loaded(file.content@),
            match r {
                Ok(list) => {
                    let results = roots_built(loaded(file.content@), file.path@);
                    &&& first_failure(results) == results.len()
                    &&& slabs(list@) == successes(results)
                    &&& texts(final(warnings)@) == texts(old(warnings)@) + load_notes(
                        file.path@,
                        file.content@,
                    ) + flat(root_notes(loaded(file.content@)))
                },
                Err(e) => {
                    let results = roots_built(loaded(file.content@), file.path@);
                    &&& first_failure(results) < results.len()
                    &&& results[first_failure(results)] == Err::<Slab, Blame>(e@)
                },
            },
    {
        *store = Nodule::load_documents(file, warnings);
        let documents: &'a Vec<Yaml> = store;
        Nodule::parse_documents(file.path.as_str(), documents, warnings)
    }

    // Methods
    /// Where the node of this slab was read.
    pub fn get_location(&self) -> (location: String)
        ensures
            location@ == location_text(self@.file_path, self@.node.position),
    {
        let mut location = self.file_path.clone();
        location.append(":");
        location.append(decimal(self.node.position.line as u128).as_str());
        location.append(":");
        location.append(decimal(self.node.position.column as u128).as_str());
        location
    }

    /// Hands the data matrix down the tree: this slab takes a copy of
    /// `data_matrix` and overlays it with the entries of its own mapping, and
    /// each of its children does the same with the result. The first fault
    /// met ends it.
    pub fn populate(&mut self, data_matrix: &MultiStringMap) -> (r: Result<(), SchemaError>)
        requires
            data_matrix.wf(),
        ensures
            match r {
                Ok(()) => populated(old(self)@, data_matrix@) == Ok::<Slab, Blame>(final(self)@),
                Err(e) => populated(old(self)@, data_matrix@) == Err::<Slab, Blame>(e@),
            },
        decreases old(self)@,
    {
        let node: &'a Yaml = self.node;
        let data = match &node.data {
            YamlData::Mapping(m) => m,
            _ => {
                return Err(
                    SchemaError {
                        fault: Fault::NodeNotMapping,
                        file_path: self.file_path.clone(),
                        position: node.position,
                        key: String::new(),
                    },
                );
            },
        };
        let ghost pairs = node_pairs(data@);
        let ghost inherited = data_matrix@;
        proof {
            lemma_mapping_view(*data);
            lemma_children_view(*self);
        }

        self.data_matrix = data_matrix.clone();

        let mut i: usize = 0;
        assert(pairs.take(0) =~= Seq::<(Node, Node)>::empty());
        while i < data.len()
            invariant
                i <= data.len(),
                pairs == node_pairs(data@),
                self.data_matrix.wf(),
                with_entries(inherited, pairs.take(i as int)) == Ok::<
                    Seq<Entry>,
                    (Fault, Seq<char>),
                >(self.data_matrix@),
                self.node == old(self).node,
                self.flag == old(self).flag,
                self.is_leaf == old(self).is_leaf,
                self.file_path == old(self).file_path,
                self.children == old(self).children,
                node == self.node,
                node@.value == Value::Mapping(pairs),
                inherited == data_matrix@,
                old(self)@.node == node@,
                old(self)@.file_path == self.file_path@,
            decreases data.len() - i,
        {
            proof {
                assert(pairs.take(i as int + 1).drop_last() =~= pairs.take(i as int));
                assert(pairs.take(i as int + 1).last() == pairs[i as int]);
                assert(pairs.take(data.len() as int) =~= pairs);
            }
            let key = match &data[i].0.data {
                YamlData::String(s) => s,
                _ => {
                    proof {
                        lemma_with_entries_stops(inherited, pairs, i as int + 1);
                    }
                    return Err(
                        SchemaError {
                            fault: Fault::KeyNotString,
                            file_path: self.file_path.clone(),
                            position: node.position,
                            key: String::new(),
                        },
                    );
                },
            };
            if !is_reserved(key.as_str()) {
                let value_vector = match read_alternatives(&data[i].1) {
                    Ok(values) => values,
                    Err(fault) => {
                        proof {
                            lemma_with_entries_stops(inherited, pairs, i as int + 1);
                        }
                        return Err(
                            SchemaError {
                                fault,
                                file_path: self.file_path.clone(),
                                position: node.position,
                                key: key.clone(),
                            },
                        );
                    },
                };
                assert(texts(value_vector@).len() == value_vector@.len());
                self.data_matrix.insert(key.clone(), value_vector);
            }
            i = i + 1;
        }
        assert(pairs.take(i as int) =~= pairs);
        let ghost matrix = self.data_matrix@;
        let ghost children = old(self)@.children;
        let ghost results = populated_each(children, matrix);
        proof {
            reveal_with_fuel(populated_each, 2);
        }

        let mut j: usize = 0;
        while j < self.children.len()
            invariant
                j <= self.children.len(),
                self.children@.len() == children.len(),
                children == old(self)@.children,
                results == populated_each(children, matrix),
                results.len() == children.len(),
                forall|k: int|
                    0 <= k < children.len() ==> #[trigger] results[k] == populated(
                        children[k],
                        matrix,
                    ),
                forall|k: int|
                    0 <= k < j ==> #[trigger] results[k] == Ok::<Slab, Blame>(self.children@[k]@),
                forall|k: int|
                    j <= k < children.len() ==> (#[trigger] self.children@[k])@ == children[k],
                self.data_matrix@ == matrix,
                self.data_matrix.wf(),
                self.node == old(self).node,
                self.flag == old(self).flag,
                self.is_leaf == old(self).is_leaf,
                self.file_path == old(self).file_path,
                old(self)@.node.value == Value::Mapping(pairs),
                with_entries(inherited, pairs) == Ok::<Seq<Entry>, (Fault, Seq<char>)>(matrix),
                inherited == data_matrix@,
            decreases self.children.len() - j,
        {
            let ghost held = self.children@;
            match self.children[j].populate(&self.data_matrix) {
                Ok(()) => {},
                Err(e) => {
                    proof {
                        lemma_first_failure_at(results, j as int);
                    }
                    return Err(e);
                },
            }
            proof {
                assert(self.children@ =~= held.update(j as int, self.children@[j as int]));
            }
            j = j + 1;
        }
        proof {
            lemma_first_failure_at(results, results.len() as int);
            lemma_children_view(*self);
            assert(slabs(self.children@) =~= successes(results));
        }
        Ok(())
    }
}

/// Once a prefix of the entries has met a fault, the whole has met it.
proof fn lemma_with_entries_stops(matrix: Seq<Entry>, pairs: Seq<(Node, Node)>, upto: int)
    requires
        0 <= upto <= pairs.len(),
        with_entries(matrix, pairs.take(upto)) is Err,
    ensures
        with_entries(matrix, pairs) == with_entries(matrix, pairs.take(upto)),
    decreases pairs.len() - upto,
{
    if upto < pairs.len() {
        assert(pairs.take(upto + 1).drop_last() =~= pairs.take(upto));
        lemma_with_entries_stops(matrix, pairs, upto + 1);
    } else {
        assert(pairs.take(upto) =~= pairs);
    }
}

} // verus!
