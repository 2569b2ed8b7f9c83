//! Gathering the values of equal keys and giving each value its type.

use crate::decode::{decode_with, decoded_value};
use crate::json::{Enclosure, ENCLOSURE_PATTERN};
use crate::value::{
    distinct_keys, lemma_array_view, lemma_object_view, member_views, views, well_formed,
    TypedValue, ValueView,
};
use rustc_hash::{FxBuildHasher, FxHashMap};
use vstd::prelude::*;

verus! {

/// The keys of `pairs`, each once, in the order in which they first occur.
pub open spec fn first_keys(pairs: Seq<(Seq<char>, Seq<char>)>) -> Seq<Seq<char>>
    decreases pairs.len(),
{
    if pairs.len() == 0 {
        Seq::empty()
    } else {
        let front = first_keys(pairs.drop_last());
        if front.contains(pairs.last().0) {
            front
        } else {
            front.push(pairs.last().0)
        }
    }
}

/// The typed values of the pairs with the key `key`, in the order of the
/// pairs.
pub open spec fn values_of(
    pairs: Seq<(Seq<char>, Seq<char>)>,
    key: Seq<char>,
    parse_numbers: bool,
) -> Seq<ValueView>
    decreases pairs.len(),
{
    if pairs.len() == 0 {
        Seq::empty()
    } else {
        let front = values_of(pairs.drop_last(), key, parse_numbers);
        if pairs.last().0 == key {
            front.push(decoded_value(pairs.last().1, parse_numbers))
        } else {
            front
        }
    }
}

/// The value of a key with these values: the value itself where there is
/// exactly one, the array of them otherwise.
pub open spec fn gathered(values: Seq<ValueView>) -> ValueView {
    if values.len() == 1 {
        values[0]
    } else {
        ValueView::Array(values)
    }
}

/// The members of the object that `pairs` come to: one for each key, in the
/// order in which the keys first occur, with the gathered values of the key.
pub open spec fn object_members(pairs: Seq<(Seq<char>, Seq<char>)>, parse_numbers: bool) -> Seq<
    (Seq<char>, ValueView),
> {
    let keys = first_keys(pairs);
    Seq::new(keys.len(), |i: int| (keys[i], gathered(values_of(pairs, keys[i], parse_numbers))))
}

/// Every key of `pairs` is among its first keys, and none stands there
/// twice.
proof fn lemma_first_keys(pairs: Seq<(Seq<char>, Seq<char>)>)
    ensures
        forall|k: int| 0 <= k < pairs.len() ==> first_keys(pairs).contains((#[trigger] pairs[k]).0),
        forall|i: int, j: int|
            0 <= i < j < first_keys(pairs).len() ==> #[trigger] first_keys(pairs)[i]
                != #[trigger] first_keys(pairs)[j],
        forall|i: int|
            0 <= i < first_keys(pairs).len() ==> exists|k: int|
                0 <= k < pairs.len() && (#[trigger] pairs[k]).0 == #[trigger] first_keys(pairs)[i],
    decreases pairs.len(),
{
    if pairs.len() > 0 {
        let rest = pairs.drop_last();
        let front = first_keys(rest);
        let keys = first_keys(pairs);
        lemma_first_keys(rest);
        assert forall|k: int| 0 <= k < pairs.len() implies keys.contains(
            (#[trigger] pairs[k]).0,
        ) by {
            if k < rest.len() {
                assert(rest[k] == pairs[k]);
                let at = choose|at: int| 0 <= at < front.len() && front[at] == rest[k].0;
                assert(keys[at] == pairs[k].0);
            } else if front.contains(pairs.last().0) {
            } else {
                assert(keys[front.len() as int] == pairs[k].0);
            }
        }
        assert forall|i: int| 0 <= i < keys.len() implies exists|k: int|
            0 <= k < pairs.len() && (#[trigger] pairs[k]).0 == #[trigger] keys[i] by {
            if i < front.len() {
                let k = choose|k: int| 0 <= k < rest.len() && (#[trigger] rest[k]).0 == front[i];
                assert(pairs[k].0 == keys[i]);
            } else {
                assert(pairs[pairs.len() - 1].0 == keys[i]);
            }
        }
    }
}

/// A key that is not among the first keys of `pairs` has no value there.
proof fn lemma_absent_key(
    pairs: Seq<(Seq<char>, Seq<char>)>,
    key: Seq<char>,
    parse_numbers: bool,
)
    requires
        !first_keys(pairs).contains(key),
    ensures
        values_of(pairs, key, parse_numbers) == Seq::<ValueView>::empty(),
    decreases pairs.len(),
{
    if pairs.len() > 0 {
        let rest = pairs.drop_last();
        let front = first_keys(rest);
        lemma_first_keys(pairs);
        assert(pairs[pairs.len() - 1].0 != key);
        if front.contains(key) {
            let at = choose|at: int| 0 <= at < front.len() && front[at] == key;
            assert(first_keys(pairs)[at] == key);
        }
        lemma_absent_key(rest, key, parse_numbers);
    }
}

/// Whether `key` is the key of one of `pairs`.
pub open spec fn has_key(pairs: Seq<(Seq<char>, Seq<char>)>, key: Seq<char>) -> bool {
    exists|k: int| 0 <= k < pairs.len() && (#[trigger] pairs[k]).0 == key
}

/// Whether `key` is the key of one of `members`.
pub open spec fn has_member(members: Seq<(Seq<char>, ValueView)>, key: Seq<char>) -> bool {
    exists|i: int| 0 <= i < members.len() && (#[trigger] members[i]).0 == key
}

/// An object has no more members than there are pairs, no key twice, and
/// for its keys exactly the keys of the pairs.
pub proof fn lemma_members_of_pairs(pairs: Seq<(Seq<char>, Seq<char>)>, parse_numbers: bool)
    ensures
        object_members(pairs, parse_numbers).len() <= pairs.len(),
        distinct_keys(object_members(pairs, parse_numbers)),
        forall|key: Seq<char>| #[trigger]
            has_member(object_members(pairs, parse_numbers), key) <==> has_key(pairs, key),
{
    let members = object_members(pairs, parse_numbers);
    let keys = first_keys(pairs);
    lemma_first_keys(pairs);
    lemma_first_keys_len(pairs);
    assert forall|key: Seq<char>| #[trigger]
        has_member(members, key) <==> has_key(pairs, key) by {
        if has_member(members, key) {
            let i = choose|i: int| 0 <= i < members.len() && (#[trigger] members[i]).0 == key;
            assert(keys[i] == key);
        }
        if has_key(pairs, key) {
            let k = choose|k: int| 0 <= k < pairs.len() && (#[trigger] pairs[k]).0 == key;
            assert(keys.contains(pairs[k].0));
            let i = choose|i: int| 0 <= i < keys.len() && keys[i] == key;
            assert(members[i].0 == key);
        }
    }
}

/// There are no more first keys than pairs.
proof fn lemma_first_keys_len(pairs: Seq<(Seq<char>, Seq<char>)>)
    ensures
        first_keys(pairs).len() <= pairs.len(),
    decreases pairs.len(),
{
    if pairs.len() > 0 {
        lemma_first_keys_len(pairs.drop_last());
    }
}

/// The hasher of the `rustc_hash` crate with which an index hashes its keys.
#[verifier::external_type_specification]
#[verifier::external_body]
pub struct ExFxBuildHasher(FxBuildHasher);

/// What an index holds: the keys that were entered, each with its slot.
pub uninterp spec fn slots(index: FxHashMap<String, usize>) -> Map<Seq<char>, usize>;

/// `FxHashMap::default`: an index that holds nothing.
#[verifier::external_body]
pub(crate) fn index_new() -> (fresh: FxHashMap<String, usize>)
    ensures
        forall|key: Seq<char>| !slots(fresh).contains_key(key),
{
    FxHashMap::default()
}

/// `HashMap::get`: the slot that was entered for `key`, if any.
#[verifier::external_body]
pub(crate) fn index_get(index: &FxHashMap<String, usize>, key: &str) -> (slot: Option<usize>)
    ensures
        slot is Some <==> slots(*index).contains_key(key@),
        slot matches Some(s) ==> slots(*index)[key@] == s,
{
    index.get(key).copied()
}

/// `HashMap::insert`: enters `slot` for `key`, in place of the slot that
/// `key` had, if it had one.
#[verifier::external_body]
pub(crate) fn index_insert(index: &mut FxHashMap<String, usize>, key: String, slot: usize)
    ensures
        slots(*final(index)) == slots(*old(index)).insert(key@, slot),
{
    index.insert(key, slot);
}

/// The value of a key with these values.
pub fn gather(values: Vec<TypedValue>) -> (value: TypedValue)
    ensures
        value@ == gathered(views(values@)),
        (forall|k: int| 0 <= k < values.len() ==> well_formed(#[trigger] values@[k]@))
            ==> well_formed(value@),
{
    let mut values = values;
    if values.len() == 1 {
        values.pop().unwrap()
    } else {
        proof {
            lemma_array_view(values);
        }
        TypedValue::Array(values)
    }
}

/// Whether `groups` are the groups of `pairs`: one for each key, in the
/// order in which the keys first occur, with the typed values of the key in
/// the order of the pairs, each of them well formed.
pub open spec fn are_groups(
    groups: Seq<(String, Vec<TypedValue>)>,
    pairs: Seq<(Seq<char>, Seq<char>)>,
    parse_numbers: bool,
) -> bool {
    &&& groups.len() == first_keys(pairs).len()
    &&& forall|j: int|
        0 <= j < groups.len() ==> (#[trigger] groups[j]).0@ == first_keys(pairs)[j] && views(
            groups[j].1@,
        ) == values_of(pairs, first_keys(pairs)[j], parse_numbers)
    &&& forall|j: int, k: int|
        0 <= j < groups.len() && 0 <= k < groups[j].1.len() ==> well_formed(
            #[trigger] groups[j].1@[k]@,
        )
}

/// Whether `index` tells of each key, and of nothing else, where its group
/// stands among `groups`.
pub open spec fn is_index_of(
    index: Map<Seq<char>, usize>,
    groups: Seq<(String, Vec<TypedValue>)>,
) -> bool {
    &&& forall|key: Seq<char>| #[trigger]
        index.contains_key(key) ==> index[key] < groups.len() && groups[index[key] as int].0@
            == key
    &&& forall|j: int|
        0 <= j < groups.len() ==> index.contains_key((#[trigger] groups[j]).0@)
            && index[groups[j].0@] == j
}

/// The coercer: it gathers the values of equal keys and gives each value its
/// type. It holds the compiled test for enclosed texts, so that one coercer
/// serves any number of query strings.
pub struct Coercer {
    enclosure: Enclosure,
}

impl Coercer {
    /// The pattern from which the coercer's test for enclosed texts was
    /// compiled.
    pub closed spec fn pattern(&self) -> Seq<char> {
        self.enclosure.pattern()
    }

    /// A coercer, ready for use: its test for enclosed texts is compiled
    /// from [`ENCLOSURE_PATTERN`].
    pub fn new() -> (made: Self)
        ensures
            made.pattern() == ENCLOSURE_PATTERN@,
    {
        Coercer { enclosure: Enclosure::new() }
    }

    /// The typed value of the text of one field.
    pub fn decode_value(&self, text: &str, parse_numbers: bool) -> (value: TypedValue)
        ensures
            value@ == decoded_value(text@, parse_numbers),
            well_formed(value@),
    {
        decode_with(&self.enclosure, text, parse_numbers)
    }

    /// The groups of `pairs`: the typed values of each key, in the order in
    /// which the keys first occur.
    pub fn group(&self, pairs: &Vec<(String, String)>, parse_numbers: bool) -> (groups: Vec<
        (String, Vec<TypedValue>),
    >)
        ensures
            are_groups(groups@, pairs.deep_view(), parse_numbers),
    {
        let ghost all = pairs.deep_view();
        let mut index = index_new();
        let mut groups: Vec<(String, Vec<TypedValue>)> = Vec::new();
        let mut i: usize = 0;
        while i < pairs.len()
            invariant
                i <= pairs.len(),
                all == pairs.deep_view(),
                are_groups(groups@, all.take(i as int), parse_numbers),
                is_index_of(slots(index), groups@),
            decreases pairs.len() - i,
        {
            let ghost seen = all.take(i as int);
            let ghost next = all.take(i + 1);
            let ghost held = groups@;
            let ghost before = slots(index);
            let key = &pairs[i].0;
            let value = self.decode_value(pairs[i].1.as_str(), parse_numbers);
            proof {
                assert(next.drop_last() =~= seen);
                lemma_first_keys(seen);
            }
            match index_get(&index, key.as_str()) {
                Some(slot) => {
                    groups[slot].1.push(value);
                    proof {
                        assert(views(groups@[slot as int].1@) =~= views(held[slot as int].1@).push(
                            value@,
                        ));
                        assert forall|j: int| 0 <= j < groups.len() && j != slot implies groups@[j]
                            == held[j] && held[j].0@ != key@ by {
                            assert(before[held[j].0@] == j);
                        }
                    }
                },
                None => {
                    index_insert(&mut index, key.clone(), groups.len());
                    let mut values: Vec<TypedValue> = Vec::new();
                    values.push(value);
                    groups.push((key.clone(), values));
                    proof {
                        if first_keys(seen).contains(key@) {
                            let at = choose|at: int|
                                0 <= at < first_keys(seen).len() && first_keys(seen)[at] == key@;
                            assert(before.contains_key(held[at].0@));
                        }
                        lemma_absent_key(seen, key@, parse_numbers);
                        assert(views(groups@[held.len() as int].1@) =~= seq![value@]);
                        assert forall|j: int| 0 <= j < held.len() implies groups@[j] == held[j]
                            && held[j].0@ != key@ by {
                            assert(before.contains_key(held[j].0@));
                        }
                        assert forall|other: Seq<char>| #[trigger]
                            slots(index).contains_key(other) implies slots(index)[other]
                            < groups.len() && groups@[slots(index)[other] as int].0@ == other by {
                            if other != key@ {
                                assert(groups@[before[other] as int] == held[before[other] as int]);
                            }
                        }
                    }
                },
            }
            i += 1;
        }
        assert(all.take(i as int) =~= all);
        groups
    }

    /// The typed object that `pairs` come to: each key once, in the order in
    /// which the keys first occur, with the value of the key where it occurs
    /// once and the array of its values, in their order, where it occurs
    /// more often.
    pub fn coerce(&self, pairs: &Vec<(String, String)>, parse_numbers: bool) -> (object: TypedValue)
        ensures
            object@ == ValueView::Object(object_members(pairs.deep_view(), parse_numbers)),
            well_formed(object@),
    {
        let ghost all = pairs.deep_view();
        let ghost wanted = object_members(all, parse_numbers);
        let groups = self.group(pairs, parse_numbers);
        let mut members: Vec<(String, TypedValue)> = Vec::new();
        for group in it: groups
            invariant
                wanted == object_members(all, parse_numbers),
                are_groups(it.seq(), all, parse_numbers),
                members.len() == it.index(),
                forall|j: int|
                    0 <= j < members.len() ==> (#[trigger] members@[j]).0@ == wanted[j].0
                        && members@[j].1@ == wanted[j].1 && well_formed(members@[j].1@),
        {
            let ghost at = it.index() as int;
            let ghost held = members@;
            let (key, values) = group;
            proof {
                assert forall|k: int| 0 <= k < values.len() implies well_formed(
                    #[trigger] values@[k]@,
                ) by {
                    assert(values@[k] == it.seq()[at].1@[k]);
                }
            }
            let value = gather(values);
            members.push((key, value));
            proof {
                assert forall|j: int| 0 <= j < members.len() implies (#[trigger] members@[j]).0@
                    == wanted[j].0 && members@[j].1@ == wanted[j].1 && well_formed(
                    members@[j].1@,
                ) by {
                    if j < held.len() {
                        assert(members@[j] == held[j]);
                    }
                }
            }
        }
        proof {
            lemma_object_view(members);
            lemma_first_keys(all);
            assert(member_views(members@) =~= wanted);
        }
        TypedValue::Object(members)
    }
}

/// The typed object that `pairs` come to, with a coercer of its own.
pub fn coerce(pairs: &Vec<(String, String)>, parse_numbers: bool) -> (object: TypedValue)
    ensures
        object@ == ValueView::Object(object_members(pairs.deep_view(), parse_numbers)),
        well_formed(object@),
{
    Coercer::new().coerce(pairs, parse_numbers)
}

} // verus!
