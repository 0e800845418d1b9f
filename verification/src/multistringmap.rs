//! An ordered mapping from a name to a non-empty sequence of alternatives, and
//! the enumeration of its cartesian product.
use linked_hash_map::LinkedHashMap;
use vstd::prelude::*;

verus! {

#[verifier::external_type_specification]
#[verifier::external_body]
#[verifier::reject_recursive_types(K)]
#[verifier::reject_recursive_types(V)]
#[verifier::reject_recursive_types(S)]
pub struct ExLinkedHashMap<K, V, S>(LinkedHashMap<K, V, S>);

/// One entry of a matrix: a name and its alternatives.
pub type Entry = (Seq<char>, Seq<Seq<char>>);

/// What a linked hash map holds: its entries in the order in which it hands
/// them out, which is the order in which their keys were inserted. A map holds
/// a key once, so the first entry under a key is the entry under that key.
pub uninterp spec fn entries_of(map: LinkedHashMap<String, Vec<String>>) -> Seq<Entry>;

/// The texts of a sequence of strings.
pub open spec fn texts(strings: Seq<String>) -> Seq<Seq<char>> {
    Seq::new(strings.len(), |i: int| strings[i]@)
}

/// The index of the first entry of `entries` under `key`, or the length of
/// `entries` where there is none.
pub open spec fn position_of(entries: Seq<Entry>, key: Seq<char>) -> int
    decreases entries.len(),
{
    if entries.len() == 0 {
        0
    } else if entries[0].0 == key {
        0
    } else {
        1 + position_of(entries.drop_first(), key)
    }
}

/// Whether `entries` holds an entry under `key`.
pub open spec fn has_key(entries: Seq<Entry>, key: Seq<char>) -> bool {
    position_of(entries, key) < entries.len()
}

/// No two entries share a key.
pub open spec fn distinct_keys(entries: Seq<Entry>) -> bool {
    forall|i: int, j: int|
        0 <= i < j < entries.len() ==> (#[trigger] entries[i]).0 != (#[trigger] entries[j]).0
}

/// `LinkedHashMap::new`: the new map holds nothing.
#[verifier::external_body]
fn lhm_new() -> (map: LinkedHashMap<String, Vec<String>>)
    ensures
        entries_of(map) == Seq::<Entry>::empty(),
{
    LinkedHashMap::new()
}

/// `LinkedHashMap::insert` for a key that the map does not hold yet: the new
/// entry comes last, the others stay as they were, and there is no old value
/// to hand back.
#[verifier::external_body]
fn lhm_insert(
    map: &mut LinkedHashMap<String, Vec<String>>,
    key: String,
    values: Vec<String>,
) -> (displaced: Option<Vec<String>>)
    requires
        !has_key(entries_of(*old(map)), key@),
    ensures
        entries_of(*final(map)) == entries_of(*old(map)).push((key@, texts(values@))),
        displaced is None,
{
    map.insert(key, values)
}

/// `LinkedHashMap::get`: the value under `key`, if the map holds one.
#[verifier::external_body]
fn lhm_get<'a>(map: &'a LinkedHashMap<String, Vec<String>>, key: &str) -> (found: Option<
    &'a Vec<String>,
>)
    ensures
        found is Some <==> has_key(entries_of(*map), key@),
        found matches Some(values) ==> texts(values@) == entries_of(*map)[position_of(
            entries_of(*map),
            key@,
        )].1,
{
    map.get(key)
}

/// `Index::index` of `LinkedHashMap`, for a key that the map holds: the value
/// under `key`.
#[verifier::external_body]
fn lhm_at<'a>(map: &'a LinkedHashMap<String, Vec<String>>, key: &str) -> (values: &'a Vec<String>)
    requires
        has_key(entries_of(*map), key@),
    ensures
        texts(values@) == entries_of(*map)[position_of(entries_of(*map), key@)].1,
{
    &map[key]
}

/// `IndexMut::index_mut` of `LinkedHashMap`, for a key that the map holds: a
/// mutable reference to the value under `key`. Whatever is written through it
/// takes the place of that value; the entry keeps its position and every other
/// entry stays as it was.
#[verifier::external_body]
fn lhm_slot<'a>(map: &'a mut LinkedHashMap<String, Vec<String>>, key: &str) -> (slot:
    &'a mut Vec<String>)
    requires
        has_key(entries_of(*old(map)), key@),
    ensures
        texts(slot@) == entries_of(*old(map))[position_of(entries_of(*old(map)), key@)].1,
        entries_of(*final(map)) == entries_of(*old(map)).update(
            position_of(entries_of(*old(map)), key@),
            (key@, texts(final(slot)@)),
        ),
{
    &mut map[key]
}

/// `LinkedHashMap::len`: the number of entries.
#[verifier::external_body]
fn lhm_len(map: &LinkedHashMap<String, Vec<String>>) -> (len: usize)
    ensures
        len == entries_of(*map).len(),
{
    map.len()
}

/// `LinkedHashMap::keys`: the keys in the order of the entries.
#[verifier::external_body]
fn lhm_keys(map: &LinkedHashMap<String, Vec<String>>) -> (keys: Vec<String>)
    ensures
        texts(keys@) == entries_of(*map).map_values(|e: Entry| e.0),
{
    map.keys().cloned().collect()
}

/// `Clone::clone` of `LinkedHashMap`: a map with the same entries in the same
/// order.
#[verifier::external_body]
fn lhm_clone(map: &LinkedHashMap<String, Vec<String>>) -> (copy: LinkedHashMap<
    String,
    Vec<String>,
>)
    ensures
        entries_of(copy) == entries_of(*map),
{
    map.clone()
}

/// `PartialEq::eq` of `LinkedHashMap`: two maps are equal where they hold the
/// same entries in the same order.
#[verifier::external_body]
fn lhm_eq(a: &LinkedHashMap<String, Vec<String>>, b: &LinkedHashMap<String, Vec<String>>) -> (same:
    bool)
    ensures
        same == (entries_of(*a) == entries_of(*b)),
{
    a == b
}

#[derive(Debug)]
pub struct MultiStringMap(pub LinkedHashMap<String, Vec<String>>);

impl Default for MultiStringMap {
    fn default() -> (map: MultiStringMap)
        ensures
            map@ == Seq::<Entry>::empty(),
    {
        MultiStringMap(lhm_new())
    }
}

impl Clone for MultiStringMap {
    fn clone(&self) -> (copy: MultiStringMap)
        ensures
            copy@ == self@,
    {
        MultiStringMap(lhm_clone(&self.0))
    }
}

impl PartialEq for MultiStringMap {
    fn eq(&self, other: &MultiStringMap) -> (same: bool) {
        lhm_eq(&self.0, &other.0)
    }
}

impl Eq for MultiStringMap {

}

impl vstd::std_specs::cmp::PartialEqSpecImpl for MultiStringMap {
    open spec fn obeys_eq_spec() -> bool {
        true
    }

    open spec fn eq_spec(&self, other: &MultiStringMap) -> bool {
        self@ == other@
    }
}

impl View for MultiStringMap {
    type V = Seq<Entry>;

    open spec fn view(&self) -> Seq<Entry> {
        entries_of(self.0)
    }
}

/// `entries` with the values under `key` replaced by `values`, or with a new
/// last entry where `key` is new.
pub open spec fn overlaid(entries: Seq<Entry>, key: Seq<char>, values: Seq<Seq<char>>) -> Seq<Entry> {
    if has_key(entries, key) {
        entries.update(position_of(entries, key), (key, values))
    } else {
        entries.push((key, values))
    }
}

impl MultiStringMap {
    /// No key occurs twice and every key has at least one alternative.
    pub open spec fn wf(&self) -> bool {
        &&& distinct_keys(self@)
        &&& filled(self@)
    }

    pub fn new() -> (map: Self)
        ensures
            map@ == Seq::<Entry>::empty(),
            map.wf(),
    {
        MultiStringMap(lhm_new())
    }

    /// Sets the alternatives of `key`. A key that is already there keeps its
    /// place in the order; a new key comes last.
    pub fn insert(&mut self, key: String, values: Vec<String>)
        requires
            old(self).wf(),
            values@.len() > 0,
        ensures
            final(self).wf(),
            final(self)@ == overlaid(old(self)@, key@, texts(values@)),
    {
        let held = lhm_get(&self.0, key.as_str()).is_some();
        if held {
            let slot = lhm_slot(&mut self.0, key.as_str());
            *slot = values;
        } else {
            let _ = lhm_insert(&mut self.0, key, values);
        }
        proof {
            lemma_overlaid_keeps_keys(old(self)@, key@, texts(values@));
        }
    }
}

pub proof fn lemma_position_of(entries: Seq<Entry>, key: Seq<char>)
    ensures
        0 <= position_of(entries, key) <= entries.len(),
        has_key(entries, key) ==> entries[position_of(entries, key)].0 == key,
        forall|i: int| 0 <= i < position_of(entries, key) ==> (#[trigger] entries[i]).0 != key,
    decreases entries.len(),
{
    if entries.len() > 0 && entries[0].0 != key {
        lemma_position_of(entries.drop_first(), key);
        assert forall|i: int| 0 <= i < position_of(entries, key) implies (#[trigger] entries[i]).0
            != key by {
            if i > 0 {
                assert(entries[i] == entries.drop_first()[i - 1]);
            }
        }
    }
}

/// No alternative list is empty.
pub open spec fn filled(entries: Seq<Entry>) -> bool {
    forall|i: int| 0 <= i < entries.len() ==> (#[trigger] entries[i]).1.len() > 0
}

pub proof fn lemma_overlaid_keeps_keys(entries: Seq<Entry>, key: Seq<char>, values: Seq<Seq<char>>)
    requires
        distinct_keys(entries),
        filled(entries),
        values.len() > 0,
    ensures
        distinct_keys(overlaid(entries, key, values)),
        filled(overlaid(entries, key, values)),
{
    lemma_position_of(entries, key);
}

/// A key with the text chosen for it.
pub type Pair = (Seq<char>, Seq<char>);

/// The texts of a list of pairs of strings.
pub open spec fn pairs(entries: Seq<(String, String)>) -> Seq<Pair> {
    Seq::new(entries.len(), |i: int| (entries[i].0@, entries[i].1@))
}

/// The mapping that a list of pairs stands for. Where a key occurs twice, its
/// first pair counts.
pub open spec fn as_map(pairs: Seq<Pair>) -> Map<Seq<char>, Seq<char>>
    decreases pairs.len(),
{
    if pairs.len() == 0 {
        Map::empty()
    } else {
        as_map(pairs.drop_first()).insert(pairs[0].0, pairs[0].1)
    }
}

/// A tile: a mapping from names to texts.
#[derive(Clone, Debug)]
pub struct Dict {
    entries: Vec<(String, String)>,
}

impl View for Dict {
    type V = Map<Seq<char>, Seq<char>>;

    open spec fn view(&self) -> Map<Seq<char>, Seq<char>> {
        as_map(self.listing())
    }
}

impl Dict {
    /// The pairs of the mapping, in the order in which they are held.
    pub closed spec fn listing(&self) -> Seq<Pair> {
        pairs(self.entries@)
    }

    pub fn new() -> (dict: Dict)
        ensures
            dict.listing() == Seq::<Pair>::empty(),
            dict@ == Map::<Seq<char>, Seq<char>>::empty(),
    {
        let dict = Dict { entries: Vec::new() };
        assert(dict.listing() =~= Seq::<Pair>::empty());
        dict
    }

    /// The number of pairs held.
    pub fn len(&self) -> (len: usize)
        ensures
            len == self.listing().len(),
    {
        self.entries.len()
    }

    /// The pairs held, in the order in which they are held.
    pub fn entries(&self) -> (list: &Vec<(String, String)>)
        ensures
            pairs(list@) == self.listing(),
    {
        &self.entries
    }

    /// The text under `key`, if there is one.
    pub fn get(&self, key: &str) -> (found: Option<&String>)
        ensures
            found is Some <==> self@.contains_key(key@),
            found matches Some(text) ==> text@ == self@[key@],
    {
        let wanted = key.to_owned();
        let mut i: usize = 0;
        proof {
            lemma_as_map_skip(self.listing(), key@, 0);
        }
        while i < self.entries.len()
            invariant
                i <= self.entries.len(),
                wanted@ == key@,
                forall|k: int| 0 <= k < i ==> (#[trigger] self.listing()[k]).0 != key@,
            decreases self.entries.len() - i,
        {
            if self.entries[i].0 == wanted {
                proof {
                    lemma_as_map_skip(self.listing(), key@, i as int);
                }
                return Some(&self.entries[i].1);
            }
            i = i + 1;
        }
        proof {
            lemma_as_map_skip(self.listing(), key@, i as int);
            assert(self.listing().skip(i as int) =~= Seq::<Pair>::empty());
        }
        None
    }

    /// Sets the text under `key`.
    pub fn insert(&mut self, key: String, value: String)
        ensures
            final(self)@ == old(self)@.insert(key@, value@),
    {
        let mut i: usize = 0;
        while i < self.entries.len()
            invariant
                i <= self.entries.len(),
                self.entries@ == old(self).entries@,
                forall|k: int| 0 <= k < i ==> (#[trigger] self.listing()[k]).0 != key@,
            decreases self.entries.len() - i,
        {
            if self.entries[i].0 == key {
                let ghost before = self.listing();
                self.entries.set(i, (key, value));
                proof {
                    assert(self.listing() =~= before.update(i as int, (key@, value@)));
                    lemma_as_map_update(before, i as int, value@);
                }
                return ;
            }
            i = i + 1;
        }
        let ghost before = self.listing();
        self.entries.push((key, value));
        proof {
            assert(self.listing() =~= before.push((key@, value@)));
            lemma_as_map_push(before, key@, value@);
        }
    }
}

/// Where no pair before `i` is under `key`, the pairs from `i` on decide what
/// the mapping holds under `key`.
proof fn lemma_as_map_skip(pairs: Seq<Pair>, key: Seq<char>, i: int)
    requires
        0 <= i <= pairs.len(),
        forall|k: int| 0 <= k < i ==> (#[trigger] pairs[k]).0 != key,
    ensures
        as_map(pairs).contains_key(key) == as_map(pairs.skip(i)).contains_key(key),
        as_map(pairs).contains_key(key) ==> as_map(pairs)[key] == as_map(pairs.skip(i))[key],
        i < pairs.len() && pairs[i].0 == key ==> as_map(pairs).contains_key(key) && as_map(
            pairs,
        )[key] == pairs[i].1,
    decreases i,
{
    if i == 0 {
        assert(pairs.skip(0) =~= pairs);
    } else {
        lemma_as_map_skip(pairs.drop_first(), key, i - 1);
        assert(pairs.drop_first().skip(i - 1) =~= pairs.skip(i));
        assert forall|k: int| 0 <= k < i - 1 implies (#[trigger] pairs.drop_first()[k]).0 != key by {
            assert(pairs.drop_first()[k] == pairs[k + 1]);
        }
        assert(pairs[0].0 != key);
    }
}

proof fn lemma_as_map_update(pairs: Seq<Pair>, i: int, value: Seq<char>)
    requires
        0 <= i < pairs.len(),
        forall|k: int| 0 <= k < i ==> (#[trigger] pairs[k]).0 != pairs[i].0,
    ensures
        as_map(pairs.update(i, (pairs[i].0, value))) == as_map(pairs).insert(pairs[i].0, value),
    decreases i,
{
    let key = pairs[i].0;
    let updated = pairs.update(i, (key, value));
    if i == 0 {
        assert(updated.drop_first() =~= pairs.drop_first());
        assert(as_map(updated) =~= as_map(pairs).insert(key, value));
    } else {
        assert forall|k: int| 0 <= k < i - 1 implies (#[trigger] pairs.drop_first()[k]).0
            != pairs.drop_first()[i - 1].0 by {
            assert(pairs.drop_first()[k] == pairs[k + 1]);
        }
        lemma_as_map_update(pairs.drop_first(), i - 1, value);
        assert(updated.drop_first() =~= pairs.drop_first().update(i - 1, (key, value)));
        assert(pairs[0].0 != key);
        assert(as_map(updated) =~= as_map(pairs).insert(key, value));
    }
}

proof fn lemma_as_map_push(pairs: Seq<Pair>, key: Seq<char>, value: Seq<char>)
    requires
        forall|k: int| 0 <= k < pairs.len() ==> (#[trigger] pairs[k]).0 != key,
    ensures
        as_map(pairs.push((key, value))) == as_map(pairs).insert(key, value),
    decreases pairs.len(),
{
    let pushed = pairs.push((key, value));
    if pairs.len() == 0 {
        assert(pushed.drop_first() =~= pairs);
        assert(pushed[0] == (key, value));
        assert(as_map(pushed) == as_map(pushed.drop_first()).insert(key, value));
    } else {
        assert forall|k: int| 0 <= k < pairs.drop_first().len() implies (
        #[trigger] pairs.drop_first()[k]).0 != key by {
            assert(pairs.drop_first()[k] == pairs[k + 1]);
        }
        lemma_as_map_push(pairs.drop_first(), key, value);
        assert(pushed.drop_first() =~= pairs.drop_first().push((key, value)));
        assert(pairs[0].0 != key);
        assert(pushed[0] == pairs[0]);
        assert(as_map(pushed) == as_map(pushed.drop_first()).insert(pairs[0].0, pairs[0].1));
        assert(as_map(pairs) == as_map(pairs.drop_first()).insert(pairs[0].0, pairs[0].1));
        assert(as_map(pushed) =~= as_map(pairs).insert(key, value));
    }
}

/// The number of points of the cartesian product of `entries`: the product of
/// the numbers of alternatives.
pub open spec fn product_size(entries: Seq<Entry>) -> nat
    decreases entries.len(),
{
    if entries.len() == 0 {
        1
    } else {
        product_size(entries.drop_last()) * entries.last().1.len()
    }
}

/// The alternative that point `n` of the product picks for entry `i`: the
/// points are numbered as an odometer counts, the last entry turning fastest.
pub open spec fn choice(entries: Seq<Entry>, n: nat, i: int) -> nat
    decreases entries.len(),
{
    if entries.len() == 0 {
        0
    } else if i == entries.len() - 1 {
        n % entries.last().1.len()
    } else {
        choice(entries.drop_last(), n / entries.last().1.len(), i)
    }
}

/// Point `n` of the product: each key with the alternative picked for it.
pub open spec fn point(entries: Seq<Entry>, n: nat) -> Seq<Pair> {
    Seq::new(entries.len(), |i: int| (entries[i].0, entries[i].1[choice(entries, n, i) as int]))
}

/// Tile `n` of the matrix `entries`.
pub open spec fn tile(entries: Seq<Entry>, n: nat) -> Map<Seq<char>, Seq<char>> {
    as_map(point(entries, n))
}

/// `indices` picks one alternative for each entry.
pub open spec fn picks(entries: Seq<Entry>, indices: Seq<usize>) -> bool {
    &&& indices.len() == entries.len()
    &&& forall|i: int| 0 <= i < entries.len() ==> (#[trigger] indices[i]) < entries[i].1.len()
}

/// The number of the point that `indices` picks.
pub open spec fn number(entries: Seq<Entry>, indices: Seq<usize>) -> nat
    decreases entries.len(),
{
    if entries.len() == 0 {
        0
    } else {
        number(entries.drop_last(), indices.drop_last()) * entries.last().1.len()
            + indices[entries.len() - 1] as nat
    }
}

proof fn lemma_picks_shorter(entries: Seq<Entry>, indices: Seq<usize>)
    requires
        picks(entries, indices),
        entries.len() > 0,
    ensures
        picks(entries.drop_last(), indices.drop_last()),
{
    assert forall|i: int| 0 <= i < entries.drop_last().len() implies (
    #[trigger] indices.drop_last()[i]) < entries.drop_last()[i].1.len() by {
        assert(indices.drop_last()[i] == indices[i]);
    }
}

proof fn lemma_number_bound(entries: Seq<Entry>, indices: Seq<usize>)
    requires
        picks(entries, indices),
    ensures
        number(entries, indices) < product_size(entries),
    decreases entries.len(),
{
    if entries.len() > 0 {
        lemma_picks_shorter(entries, indices);
        lemma_number_bound(entries.drop_last(), indices.drop_last());
        let q = number(entries.drop_last(), indices.drop_last()) as int;
        let size = product_size(entries.drop_last()) as int;
        let radix = entries.last().1.len() as int;
        let digit = indices[entries.len() - 1] as int;
        assert(q * radix + digit < size * radix) by (nonlinear_arith)
            requires
                0 <= q < size,
                0 <= digit < radix,
        ;
    }
}

proof fn lemma_choice_of_number(entries: Seq<Entry>, indices: Seq<usize>, i: int)
    requires
        picks(entries, indices),
        0 <= i < entries.len(),
    ensures
        choice(entries, number(entries, indices), i) == indices[i],
    decreases entries.len(),
{
    let q = number(entries.drop_last(), indices.drop_last()) as int;
    let radix = entries.last().1.len() as int;
    let digit = indices[entries.len() - 1] as int;
    vstd::arithmetic::div_mod::lemma_fundamental_div_mod_converse(
        q * radix + digit,
        radix,
        q,
        digit,
    );
    if i < entries.len() - 1 {
        lemma_picks_shorter(entries, indices);
        lemma_choice_of_number(entries.drop_last(), indices.drop_last(), i);
    }
}

/// One step of the odometer: the entry at `turned` moves on by one, every
/// entry behind it falls back from its last alternative to its first, and the
/// number of the point grows by one.
proof fn lemma_carry(entries: Seq<Entry>, before: Seq<usize>, after: Seq<usize>, turned: int)
    requires
        picks(entries, before),
        picks(entries, after),
        0 <= turned < entries.len(),
        after[turned] == before[turned] + 1,
        forall|j: int| 0 <= j < turned ==> #[trigger] after[j] == before[j],
        forall|j: int| turned < j < entries.len() ==> #[trigger] after[j] == 0,
        forall|j: int| turned < j < entries.len() ==> (#[trigger] before[j]) + 1 == entries[j].1.len(),
    ensures
        number(entries, after) == number(entries, before) + 1,
    decreases entries.len(),
{
    let last = entries.len() - 1;
    if turned == last {
        assert(after.drop_last() =~= before.drop_last());
    } else {
        lemma_picks_shorter(entries, before);
        lemma_picks_shorter(entries, after);
        lemma_carry(entries.drop_last(), before.drop_last(), after.drop_last(), turned);
        let q = number(entries.drop_last(), before.drop_last()) as int;
        let radix = entries.last().1.len() as int;
        assert(after[last] == 0 && before[last] + 1 == entries[last].1.len());
        assert((q + 1) * radix == q * radix + (radix - 1) + 1) by (nonlinear_arith);
    }
}

/// Where every entry stands at its last alternative, the point is the last of
/// the product.
proof fn lemma_last_point(entries: Seq<Entry>, indices: Seq<usize>)
    requires
        picks(entries, indices),
        forall|j: int| 0 <= j < entries.len() ==> (#[trigger] indices[j]) + 1 == entries[j].1.len(),
    ensures
        number(entries, indices) + 1 == product_size(entries),
    decreases entries.len(),
{
    if entries.len() > 0 {
        let last = entries.len() - 1;
        lemma_picks_shorter(entries, indices);
        assert forall|j: int| 0 <= j < entries.drop_last().len() implies (
        #[trigger] indices.drop_last()[j]) + 1 == entries.drop_last()[j].1.len() by {
            assert(indices.drop_last()[j] == indices[j]);
        }
        lemma_last_point(entries.drop_last(), indices.drop_last());
        let q = number(entries.drop_last(), indices.drop_last()) as int;
        let radix = entries.last().1.len() as int;
        assert(indices[last] + 1 == entries[last].1.len());
        assert(q * radix + (radix - 1) + 1 == (q + 1) * radix) by (nonlinear_arith);
    }
}

/// Where every entry stands at its first alternative, the point is the first
/// of the product.
proof fn lemma_first_point(entries: Seq<Entry>, indices: Seq<usize>)
    requires
        indices.len() == entries.len(),
        forall|j: int| 0 <= j < entries.len() ==> (#[trigger] indices[j]) == 0,
    ensures
        number(entries, indices) == 0,
    decreases entries.len(),
{
    if entries.len() > 0 {
        assert forall|j: int| 0 <= j < entries.drop_last().len() implies (
        #[trigger] indices.drop_last()[j]) == 0 by {
            assert(indices.drop_last()[j] == indices[j]);
        }
        lemma_first_point(entries.drop_last(), indices.drop_last());
        assert(indices[entries.len() - 1] == 0);
        let q = number(entries.drop_last(), indices.drop_last()) as int;
        let radix = entries.last().1.len() as int;
        assert(q * radix == 0) by (nonlinear_arith)
            requires
                q == 0,
        ;
    }
}

pub proof fn lemma_position_distinct(entries: Seq<Entry>, i: int)
    requires
        distinct_keys(entries),
        0 <= i < entries.len(),
    ensures
        position_of(entries, entries[i].0) == i,
{
    lemma_position_of(entries, entries[i].0);
    let p = position_of(entries, entries[i].0);
    if p > i {
        assert(entries[i].0 != entries[i].0);
    }
    if p < i {
        assert(entries[p].0 != entries[i].0);
    }
}

/// Walks the cartesian product of a matrix, tile by tile.
pub struct MultiStringMapProductIterator {
    map: MultiStringMap,
    keys: Vec<String>,
    sizes: Vec<usize>,
    /// The indices track the progress of values through every set
    indices: Vec<usize>,
    first: bool,
    stopped: bool,
    combination: Dict,
}

impl MultiStringMap {
    /// The values under `key`, if the matrix holds the key.
    pub fn get(&self, key: &str) -> (found: Option<&Vec<String>>)
        ensures
            found is Some <==> has_key(self@, key@),
            found matches Some(values) ==> texts(values@) == self@[position_of(self@, key@)].1,
    {
        lhm_get(&self.0, key)
    }

    /// The number of keys.
    pub fn len(&self) -> (len: usize)
        ensures
            len == self@.len(),
    {
        lhm_len(&self.0)
    }

    /// Starts the enumeration of the product, before its first tile.
    pub fn into_product_iterator(self) -> (iterator: MultiStringMapProductIterator)
        requires
            self.wf(),
        ensures
            iterator.wf(),
            iterator.matrix() == self@,
            iterator.emitted() == 0,
    {
        let keys = lhm_keys(&self.0);
        let ghost entries = self@;
        let mut sizes: Vec<usize> = Vec::new();
        let mut indices: Vec<usize> = Vec::new();
        let mut combination = Dict { entries: Vec::new() };
        let mut i: usize = 0;
        assert(keys@.len() == entries.len()) by {
            assert(texts(keys@).len() == keys@.len());
        }
        while i < keys.len()
            invariant
                i <= keys.len(),
                entries == self@,
                self.wf(),
                keys@.len() == entries.len(),
                texts(keys@) == entries.map_values(|e: Entry| e.0),
                sizes@.len() == i,
                indices@.len() == i,
                combination.entries@.len() == i,
                forall|k: int| 0 <= k < i ==> (#[trigger] sizes@[k]) == entries[k].1.len(),
                forall|k: int| 0 <= k < i ==> (#[trigger] indices@[k]) == 0,
                forall|k: int|
                    0 <= k < i ==> (#[trigger] combination.entries@[k]).0@ == entries[k].0
                        && combination.entries@[k].1@ == entries[k].1[0],
            decreases keys.len() - i,
        {
            proof {
                lemma_position_distinct(entries, i as int);
                assert(texts(keys@)[i as int] == keys@[i as int]@);
                assert(entries.map_values(|e: Entry| e.0)[i as int] == entries[i as int].0);
            }
            let values = lhm_at(&self.0, keys[i].as_str());
            assert(texts(values@).len() == values@.len());
            assert(texts(values@)[0] == values@[0]@);
            sizes.push(values.len());
            indices.push(0);
            combination.entries.push((keys[i].clone(), values[0].clone()));
            i = i + 1;
        }
        let iterator = MultiStringMapProductIterator {
            map: self,
            keys,
            sizes,
            indices,
            first: true,
            stopped: false,
            combination,
        };
        proof {
            assert(iterator.combination.listing() =~= Seq::new(
                entries.len(),
                |i: int| (entries[i].0, entries[i].1[iterator.indices@[i] as int]),
            ));
        }
        iterator
    }
}

impl MultiStringMapProductIterator {
    /// The matrix whose product is walked.
    pub closed spec fn matrix(&self) -> Seq<Entry> {
        self.map@
    }

    /// The arrays agree with the matrix, and the combination is the point that
    /// the indices pick.
    spec fn consistent(&self) -> bool {
        let entries = self.map@;
        &&& self.map.wf()
        &&& texts(self.keys@) == entries.map_values(|e: Entry| e.0)
        &&& self.sizes@.len() == entries.len()
        &&& forall|i: int| 0 <= i < entries.len() ==> (#[trigger] self.sizes@[i]) == entries[i].1.len()
        &&& picks(entries, self.indices@)
        &&& self.combination.listing() == Seq::new(
            entries.len(),
            |i: int| (entries[i].0, entries[i].1[self.indices@[i] as int]),
        )
    }

    pub closed spec fn wf(&self) -> bool {
        &&& self.consistent()
        &&& self.first ==> forall|i: int|
            0 <= i < self.indices@.len() ==> (#[trigger] self.indices@[i]) == 0
    }

    /// The number of tiles handed out so far.
    pub closed spec fn emitted(&self) -> nat {
        if self.stopped {
            product_size(self.map@)
        } else if self.first {
            0
        } else {
            number(self.map@, self.indices@) + 1
        }
    }

    /// The combination is the tile that the indices pick.
    proof fn lemma_combination(&self)
        requires
            self.consistent(),
        ensures
            number(self.map@, self.indices@) < product_size(self.map@),
            self.combination@ == tile(self.map@, number(self.map@, self.indices@)),
    {
        let entries = self.map@;
        let n = number(entries, self.indices@);
        lemma_number_bound(entries, self.indices@);
        assert(self.combination.listing() =~= point(entries, n)) by {
            assert forall|i: int| 0 <= i < entries.len() implies choice(entries, n, i)
                == self.indices@[i] by {
                lemma_choice_of_number(entries, self.indices@, i);
            }
        }
    }

    /// Hands out the next tile of the product, or nothing once all have been
    /// handed out. The tiles come in the order of an odometer whose last key
    /// turns fastest.
    pub fn next(&mut self) -> (tile: Option<&Dict>)
        requires
            old(self).wf(),
        ensures
            final(self).wf(),
            final(self).matrix() == old(self).matrix(),
            old(self).emitted() < product_size(old(self).matrix()) ==> tile is Some
                && final(self).emitted() == old(self).emitted() + 1,
            old(self).emitted() >= product_size(old(self).matrix()) ==> tile is None
                && final(self).emitted() == old(self).emitted(),
            tile matches Some(dict) ==> dict@ == self::tile(old(self).matrix(), old(self).emitted()),
    {
        if self.stopped {
            return None;
        }
        if self.first {
            self.first = false;
            proof {
                lemma_first_point(self.map@, self.indices@);
                self.lemma_combination();
            }
            return Some(&self.combination);
        }
        let ghost entries = self.map@;
        let ghost before = self.indices@;
        let mut m: usize = self.indices.len();
        while m > 0
            invariant
                self.consistent(),
                self.map@ == entries,
                old(self).map@ == entries,
                old(self).indices@ == before,
                !old(self).first,
                !old(self).stopped,
                !self.first,
                !self.stopped,
                picks(entries, before),
                m <= entries.len(),
                forall|j: int| 0 <= j < m ==> #[trigger] self.indices@[j] == before[j],
                forall|j: int| m <= j < entries.len() ==> #[trigger] self.indices@[j] == 0,
                forall|j: int|
                    m <= j < entries.len() ==> (#[trigger] before[j]) + 1 == entries[j].1.len(),
            decreases m,
        {
            m = m - 1;
            assert(self.keys@.len() == entries.len()) by {
                assert(texts(self.keys@).len() == self.keys@.len());
            }
            assert(self.indices@[m as int] < entries[m as int].1.len());
            assert(self.sizes@[m as int] == entries[m as int].1.len());
            let next_index: usize = if self.indices[m] + 1 < self.sizes[m] {
                self.indices[m] + 1
            } else {
                0
            };
            proof {
                lemma_position_distinct(entries, m as int);
                assert(texts(self.keys@)[m as int] == self.keys@[m as int]@);
                assert(entries.map_values(|e: Entry| e.0)[m as int] == entries[m as int].0);
            }
            let values = lhm_at(&self.map.0, self.keys[m].as_str());
            assert(texts(values@).len() == values@.len());
            assert(texts(values@)[next_index as int] == values@[next_index as int]@);
            let value = values[next_index].clone();
            let key = self.keys[m].clone();
            let ghost listing = self.combination.listing();
            assert(self.combination.entries@.len() == listing.len());
            self.indices.set(m, next_index);
            self.combination.entries.set(m, (key, value));
            proof {
                assert(self.combination.listing() =~= listing.update(
                    m as int,
                    (entries[m as int].0, entries[m as int].1[next_index as int]),
                ));
                assert(self.combination.listing() =~= Seq::new(
                    entries.len(),
                    |i: int| (entries[i].0, entries[i].1[self.indices@[i] as int]),
                ));
            }
            if next_index != 0 {
                proof {
                    lemma_carry(entries, before, self.indices@, m as int);
                    self.lemma_combination();
                }
                return Some(&self.combination);
            }
        }
        proof {
            lemma_last_point(entries, before);
        }
        self.stopped = true;
        None
    }
}

/// Product cardinality, one way: each of the tiles numbered below the size of
/// the product picks, for every key, one of the alternatives of that key.
pub proof fn law_every_tile_is_a_point(entries: Seq<Entry>, n: nat, i: int)
    requires
        filled(entries),
        n < product_size(entries),
        0 <= i < entries.len(),
    ensures
        choice(entries, n, i) < entries[i].1.len(),
    decreases entries.len(),
{
    let radix = entries.last().1.len() as int;
    let rest = entries.drop_last();
    assert(radix > 0);
    vstd::arithmetic::div_mod::lemma_mod_pos_bound(n as int, radix);
    if i < entries.len() - 1 {
        assert(filled(rest)) by {
            assert forall|k: int| 0 <= k < rest.len() implies (#[trigger] rest[k]).1.len() > 0 by {
                assert(rest[k] == entries[k]);
            }
        }
        let size = product_size(rest) as int;
        let q = n as int / radix;
        vstd::arithmetic::div_mod::lemma_fundamental_div_mod(n as int, radix);
        vstd::arithmetic::div_mod::lemma_div_pos_is_pos(n as int, radix);
        assert(q < size) by (nonlinear_arith)
            requires
                n < size * radix,
                n == radix * q + n as int % radix,
                0 <= n as int % radix < radix,
        ;
        assert(n / (entries.last().1.len()) == q);
        law_every_tile_is_a_point(rest, q as nat, i);
    }
}

/// Product cardinality, the other way: whichever alternative is picked for
/// each key, one of the tiles numbered below the size of the product picks
/// just those. With the order of the tiles, which tells any two of them
/// apart, this makes the tiles as many as the product of the numbers of
/// alternatives. The number of the tile is returned.
pub proof fn law_every_point_is_a_tile(entries: Seq<Entry>, indices: Seq<usize>) -> (n: nat)
    requires
        picks(entries, indices),
    ensures
        n < product_size(entries),
        forall|i: int| 0 <= i < entries.len() ==> choice(entries, n, i) == #[trigger] indices[i],
{
    let n = number(entries, indices);
    lemma_number_bound(entries, indices);
    assert forall|i: int| 0 <= i < entries.len() implies choice(entries, n, i)
        == #[trigger] indices[i] by {
        lemma_choice_of_number(entries, indices, i);
    }
    n
}

/// Odometer order: of two tiles of a product, the earlier one picks an earlier
/// alternative at the first key at which the two differ. The first key thus
/// turns slowest and the last key fastest. The index of that key is returned.
pub proof fn law_odometer_order(entries: Seq<Entry>, n: nat, m: nat) -> (i: int)
    requires
        filled(entries),
        n < m < product_size(entries),
    ensures
        0 <= i < entries.len(),
        choice(entries, n, i) < choice(entries, m, i),
        forall|j: int| 0 <= j < i ==> choice(entries, n, j) == choice(entries, m, j),
    decreases entries.len(),
{
    let radix = entries.last().1.len() as int;
    let rest = entries.drop_last();
    assert(radix > 0);
    assert(filled(rest)) by {
        assert forall|k: int| 0 <= k < rest.len() implies (#[trigger] rest[k]).1.len() > 0 by {
            assert(rest[k] == entries[k]);
        }
    }
    let (qn, qm) = (n as int / radix, m as int / radix);
    vstd::arithmetic::div_mod::lemma_fundamental_div_mod(n as int, radix);
    vstd::arithmetic::div_mod::lemma_fundamental_div_mod(m as int, radix);
    vstd::arithmetic::div_mod::lemma_mod_pos_bound(n as int, radix);
    vstd::arithmetic::div_mod::lemma_mod_pos_bound(m as int, radix);
    vstd::arithmetic::div_mod::lemma_div_is_ordered(n as int, m as int, radix);
    vstd::arithmetic::div_mod::lemma_div_pos_is_pos(n as int, radix);
    assert forall|j: int| 0 <= j < entries.len() - 1 implies choice(entries, n, j) == choice(
        rest,
        qn as nat,
        j,
    ) && choice(entries, m, j) == choice(rest, qm as nat, j) by {
        assert(n / (entries.last().1.len()) == qn);
        assert(m / (entries.last().1.len()) == qm);
    }
    if qn == qm {
        entries.len() - 1
    } else {
        let size = product_size(rest) as int;
        assert(qm < size) by (nonlinear_arith)
            requires
                m < size * radix,
                m == radix * qm + m as int % radix,
                0 <= m as int % radix < radix,
        ;
        let i = law_odometer_order(rest, qn as nat, qm as nat);
        i
    }
}

/// The last key turns fastest: from one tile to the next, the alternative of
/// the last key moves on by one, and falls back to the first after the last.
pub proof fn law_last_key_turns(entries: Seq<Entry>, n: nat)
    requires
        filled(entries),
        entries.len() > 0,
        n + 1 < product_size(entries),
    ensures
        choice(entries, n + 1, entries.len() - 1) == (choice(entries, n, entries.len() - 1) + 1)
            as int % (entries.last().1.len() as int),
{
    let radix = entries.last().1.len() as int;
    vstd::arithmetic::div_mod::lemma_add_mod_noop(n as int, 1, radix);
    vstd::arithmetic::div_mod::lemma_mod_pos_bound(n as int, radix);
    if radix == 1 {
    } else {
        vstd::arithmetic::div_mod::lemma_small_mod(1, radix as nat);
    }
}

} // verus!
