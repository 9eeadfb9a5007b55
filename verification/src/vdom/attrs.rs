//! Attribute lists: pairs of a name and a value, in the order in which the
//! names were first set.
//!
//! The attributes of a declared element are an [`Attributes`] value, which
//! holds no name twice. The functions on plain lists serve it, and serve the
//! host elements, whose lists are plain.

use crate::text::str_eq;
use vstd::prelude::*;

verus! {

/// What an attribute list holds: each name with its value.
pub type Attrs = Seq<(Seq<char>, Seq<char>)>;

/// The attribute list that `attributes` stands for.
pub open spec fn attrs_view(attributes: Seq<(String, String)>) -> Attrs {
    Seq::new(attributes.len(), |i: int| (attributes[i].0@, attributes[i].1@))
}

/// Whether `attrs` holds an attribute called `name`.
pub open spec fn has_name(attrs: Attrs, name: Seq<char>) -> bool {
    exists|i: int| 0 <= i < attrs.len() && (#[trigger] attrs[i]).0 == name
}

/// Whether `i` is the first place in `attrs` at which `name` stands.
pub open spec fn is_first_index(attrs: Attrs, name: Seq<char>, i: int) -> bool {
    &&& 0 <= i < attrs.len()
    &&& attrs[i].0 == name
    &&& forall|j: int| 0 <= j < i ==> (#[trigger] attrs[j]).0 != name
}

/// The first place in `attrs` at which `name` stands, where there is one.
pub open spec fn first_index(attrs: Attrs, name: Seq<char>) -> int {
    choose|i: int| is_first_index(attrs, name, i)
}

/// The value that `attrs` gives to `name`.
pub open spec fn lookup(attrs: Attrs, name: Seq<char>) -> Option<Seq<char>> {
    if has_name(attrs, name) {
        Some(attrs[first_index(attrs, name)].1)
    } else {
        None
    }
}

/// Whether no name stands twice in `attrs`.
pub open spec fn names_unique(attrs: Attrs) -> bool {
    forall|i: int, j: int|
        0 <= i < attrs.len() && 0 <= j < attrs.len() && i != j ==> (#[trigger] attrs[i]).0 != (
        #[trigger] attrs[j]).0
}

/// `attrs` read as a mapping from names to values.
pub open spec fn attrs_map(attrs: Attrs) -> Map<Seq<char>, Seq<char>> {
    Map::new(|name: Seq<char>| has_name(attrs, name), |name: Seq<char>| lookup(attrs, name)->0)
}

/// `attrs` after `name` was given `value`: a name that was there keeps its
/// place, a new one goes to the end.
pub open spec fn with_attr(attrs: Attrs, name: Seq<char>, value: Seq<char>) -> Attrs {
    if has_name(attrs, name) {
        attrs.update(first_index(attrs, name), (name, value))
    } else {
        attrs.push((name, value))
    }
}

/// `attrs` after `name` was taken out.
pub open spec fn without_attr(attrs: Attrs, name: Seq<char>) -> Attrs {
    if has_name(attrs, name) {
        attrs.remove(first_index(attrs, name))
    } else {
        attrs
    }
}

/// A name that stands in a list has a first place there, and only one.
pub proof fn lemma_first_index(attrs: Attrs, name: Seq<char>)
    requires
        has_name(attrs, name),
    ensures
        is_first_index(attrs, name, first_index(attrs, name)),
        forall|i: int| is_first_index(attrs, name, i) ==> i == first_index(attrs, name),
{
    let k = choose|i: int| 0 <= i < attrs.len() && (#[trigger] attrs[i]).0 == name;
    lemma_first_index_below(attrs, name, k);
}

proof fn lemma_first_index_below(attrs: Attrs, name: Seq<char>, k: int)
    requires
        0 <= k < attrs.len(),
        attrs[k].0 == name,
    ensures
        exists|i: int| is_first_index(attrs, name, i),
    decreases k,
{
    if forall|j: int| 0 <= j < k ==> (#[trigger] attrs[j]).0 != name {
        assert(is_first_index(attrs, name, k));
    } else {
        let j = choose|j: int| 0 <= j < k && (#[trigger] attrs[j]).0 == name;
        lemma_first_index_below(attrs, name, j);
    }
}

/// Setting an attribute gives the name its value and leaves the other
/// names with theirs; names that were apart stay apart.
pub proof fn lemma_with_attr(attrs: Attrs, name: Seq<char>, value: Seq<char>)
    ensures
        names_unique(attrs) ==> names_unique(with_attr(attrs, name, value)),
        attrs_map(with_attr(attrs, name, value)) == attrs_map(attrs).insert(name, value),
{
    let after = with_attr(attrs, name, value);
    if has_name(attrs, name) {
        lemma_first_index(attrs, name);
    }
    assert forall|other: Seq<char>| has_name(after, other) == (other == name || has_name(
        attrs,
        other,
    )) by {
        if has_name(after, other) {
            let i = choose|i: int| 0 <= i < after.len() && (#[trigger] after[i]).0 == other;
            if other != name {
                assert(attrs[i].0 == other);
            }
        }
        if has_name(attrs, other) {
            let i = choose|i: int| 0 <= i < attrs.len() && (#[trigger] attrs[i]).0 == other;
            assert(after[i].0 == attrs[i].0);
        }
        if other == name {
            if has_name(attrs, name) {
                assert(after[first_index(attrs, name)].0 == name);
            } else {
                assert(after[attrs.len() as int].0 == name);
            }
        }
    }
    assert forall|other: Seq<char>| has_name(after, other) implies lookup(after, other) == if other
        == name {
        Some(value)
    } else {
        lookup(attrs, other)
    } by {
        lemma_first_index(after, other);
        let i = first_index(after, other);
        if other != name {
            assert(attrs[i].0 == other);
            lemma_first_index(attrs, other);
            assert(is_first_index(attrs, other, i)) by {
                assert forall|j: int| 0 <= j < i implies (#[trigger] attrs[j]).0 != other by {
                    assert(after[j].0 != other);
                }
            }
        }
    }
    assert(attrs_map(after) =~= attrs_map(attrs).insert(name, value));
}

/// Taking an attribute out keeps the names apart, drops the name and leaves
/// the other names with their values.
pub proof fn lemma_without_attr(attrs: Attrs, name: Seq<char>)
    requires
        names_unique(attrs),
    ensures
        names_unique(without_attr(attrs, name)),
        attrs_map(without_attr(attrs, name)) == attrs_map(attrs).remove(name),
{
    let after = without_attr(attrs, name);
    if has_name(attrs, name) {
        lemma_first_index(attrs, name);
        let k = first_index(attrs, name);
        assert(names_unique(after)) by {
            assert forall|i: int, j: int|
                0 <= i < after.len() && 0 <= j < after.len() && i != j implies (
            #[trigger] after[i]).0 != (#[trigger] after[j]).0 by {
                let old_i = if i < k {
                    i
                } else {
                    i + 1
                };
                let old_j = if j < k {
                    j
                } else {
                    j + 1
                };
                assert(after[i] == attrs[old_i]);
                assert(after[j] == attrs[old_j]);
            }
        }
        assert(!has_name(after, name)) by {
            if has_name(after, name) {
                let i = choose|i: int| 0 <= i < after.len() && (#[trigger] after[i]).0 == name;
                let old_i = if i < k {
                    i
                } else {
                    i + 1
                };
                assert(after[i] == attrs[old_i]);
                assert(attrs[old_i].0 == attrs[k].0);
            }
        }
        assert forall|other: Seq<char>| other != name implies lookup(after, other) == lookup(
            attrs,
            other,
        ) by {
            lemma_remove_keeps_others(attrs, k, other);
        }
        assert forall|other: Seq<char>| other != name implies has_name(after, other) == has_name(
            attrs,
            other,
        ) by {
            assert(lookup(after, other) == lookup(attrs, other));
        }
    }
    assert(attrs_map(after) =~= attrs_map(attrs).remove(name));
}

/// Taking one attribute out of a list leaves the names other than its own
/// with their values.
proof fn lemma_remove_keeps_others(attrs: Attrs, k: int, other: Seq<char>)
    requires
        0 <= k < attrs.len(),
        attrs[k].0 != other,
    ensures
        lookup(attrs.remove(k), other) == lookup(attrs, other),
{
    let after = attrs.remove(k);
    if has_name(after, other) {
        let i = choose|i: int| 0 <= i < after.len() && (#[trigger] after[i]).0 == other;
        let old_i = if i < k {
            i
        } else {
            i + 1
        };
        assert(attrs[old_i].0 == other);
    }
    if has_name(attrs, other) {
        let i = choose|i: int| 0 <= i < attrs.len() && (#[trigger] attrs[i]).0 == other;
        let new_i = if i < k {
            i
        } else {
            i - 1
        };
        assert(after[new_i].0 == other);
        lemma_first_index(after, other);
        lemma_first_index(attrs, other);
        let first = first_index(after, other);
        let old_first = if first < k {
            first
        } else {
            first + 1
        };
        assert(attrs[old_first] == after[first]);
        assert(is_first_index(attrs, other, old_first)) by {
            assert forall|j: int| 0 <= j < old_first implies (#[trigger] attrs[j]).0 != other by {
                if j < k {
                    assert(after[j] == attrs[j]);
                } else if j > k {
                    assert(after[j - 1] == attrs[j]);
                }
            }
        }
    }
}

/// Finds the place of the attribute called `name`.
pub fn find_attr(attributes: &Vec<(String, String)>, name: &str) -> (found: Option<usize>)
    ensures
        match found {
            Some(i) => is_first_index(attrs_view(attributes@), name@, i as int),
            None => !has_name(attrs_view(attributes@), name@),
        },
{
    let mut i: usize = 0;
    while i < attributes.len()
        invariant
            i <= attributes.len(),
            forall|j: int| 0 <= j < i ==> (#[trigger] attrs_view(attributes@)[j]).0 != name@,
        decreases attributes.len() - i,
    {
        if str_eq(attributes[i].0.as_str(), name) {
            return Some(i);
        }
        i += 1;
    }
    None
}

/// Looks up the value of the attribute called `name`.
pub fn get_attr<'a>(attributes: &'a Vec<(String, String)>, name: &str) -> (value: Option<&'a str>)
    ensures
        match value {
            Some(v) => lookup(attrs_view(attributes@), name@) == Some(v@),
            None => lookup(attrs_view(attributes@), name@) is None,
        },
{
    match find_attr(attributes, name) {
        Some(i) => {
            proof {
                lemma_first_index(attrs_view(attributes@), name@);
            }
            Some(attributes[i].1.as_str())
        },
        None => None,
    }
}

/// Gives the attribute called `name` the value `value`.
pub fn set_attr(attributes: &mut Vec<(String, String)>, name: &str, value: &str)
    ensures
        attrs_view(final(attributes)@) == with_attr(attrs_view(old(attributes)@), name@, value@),
{
    match find_attr(attributes, name) {
        Some(i) => {
            proof {
                lemma_first_index(attrs_view(attributes@), name@);
            }
            attributes[i] = (name.to_owned(), value.to_owned());
            assert(attrs_view(attributes@) =~= with_attr(
                attrs_view(old(attributes)@),
                name@,
                value@,
            ));
        },
        None => {
            attributes.push((name.to_owned(), value.to_owned()));
            assert(attrs_view(attributes@) =~= with_attr(
                attrs_view(old(attributes)@),
                name@,
                value@,
            ));
        },
    }
}

/// Takes out the attribute called `name`, if there is one.
pub fn unset_attr(attributes: &mut Vec<(String, String)>, name: &str)
    ensures
        attrs_view(final(attributes)@) == without_attr(attrs_view(old(attributes)@), name@),
{
    match find_attr(attributes, name) {
        Some(i) => {
            proof {
                lemma_first_index(attrs_view(attributes@), name@);
            }
            attributes.remove(i);
            assert(attrs_view(attributes@) =~= without_attr(attrs_view(old(attributes)@), name@));
        },
        None => {},
    }
}

/// Whether an attribute is called otherwise than `name`.
pub open spec fn not_named(name: Seq<char>) -> spec_fn((Seq<char>, Seq<char>)) -> bool {
    |attr: (Seq<char>, Seq<char>)| attr.0 != name
}

/// Takes out every attribute called `name`, also from a list that holds
/// the name more than once. The other attributes keep their order.
pub fn unset_all(attributes: &mut Vec<(String, String)>, name: &str)
    ensures
        attrs_view(final(attributes)@) == attrs_view(old(attributes)@).filter(not_named(name@)),
        attrs_map(attrs_view(final(attributes)@)) == attrs_map(attrs_view(old(attributes)@)).remove(
            name@,
        ),
{
    let ghost start = attrs_view(attributes@);
    let ghost kept = not_named(name@);
    let ghost mut seen: int = 0;
    let mut i: usize = 0;
    proof {
        start.take(0).lemma_filter_len(kept);
        assert(attrs_view(attributes@).take(0) =~= start.take(0).filter(kept));
        assert(attrs_view(attributes@).skip(0) =~= start.skip(0));
    }
    while i < attributes.len()
        invariant
            start == attrs_view(old(attributes)@),
            kept == not_named(name@),
            i <= attributes.len(),
            0 <= seen <= start.len(),
            attributes.len() - i == start.len() - seen,
            attrs_view(attributes@).take(i as int) == start.take(seen).filter(kept),
            attrs_view(attributes@).skip(i as int) == start.skip(seen),
            forall|other: Seq<char>|
                other != name@ ==> #[trigger] lookup(attrs_view(attributes@), other) == lookup(
                    start,
                    other,
                ),
        decreases attributes.len() - i,
    {
        let ghost before = attrs_view(attributes@);
        proof {
            assert(before[i as int] == before.skip(i as int)[0]);
            assert(before[i as int] == start[seen]);
            start.lemma_take_succ_push(seen);
            start.take(seen).lemma_filter_push(start[seen], kept);
        }
        if str_eq(attributes[i].0.as_str(), name) {
            attributes.remove(i);
            proof {
                let after = attrs_view(attributes@);
                assert(after =~= before.remove(i as int));
                assert(after.take(i as int) =~= before.take(i as int));
                let rest = after.skip(i as int);
                let wanted = start.skip(seen + 1);
                assert(rest =~= wanted) by {
                    assert forall|j: int| 0 <= j < rest.len() implies #[trigger] rest[j]
                        == wanted[j] by {
                        assert(after[i + j] == before[i + j + 1]);
                        assert(before.skip(i as int)[j + 1] == start.skip(seen)[j + 1]);
                    }
                }
                assert forall|other: Seq<char>| other != name@ implies #[trigger] lookup(
                    after,
                    other,
                ) == lookup(start, other) by {
                    lemma_remove_keeps_others(before, i as int, other);
                }
                seen = seen + 1;
            }
        } else {
            proof {
                assert(before.take(i + 1) =~= before.take(i as int).push(before[i as int]));
                let rest = before.skip(i + 1);
                let wanted = start.skip(seen + 1);
                assert(rest =~= wanted) by {
                    assert forall|j: int| 0 <= j < rest.len() implies #[trigger] rest[j]
                        == wanted[j] by {
                        assert(before.skip(i as int)[j + 1] == start.skip(seen)[j + 1]);
                    }
                }
                seen = seen + 1;
            }
            i += 1;
        }
    }
    proof {
        let after = attrs_view(attributes@);
        assert(seen == start.len());
        assert(after.take(i as int) =~= after);
        assert(start.take(seen) =~= start);
        assert(!has_name(after, name@)) by {
            if has_name(after, name@) {
                let j = choose|j: int| 0 <= j < after.len() && (#[trigger] after[j]).0 == name@;
                start.lemma_filter_pred(kept, j);
            }
        }
        assert forall|other: Seq<char>| other != name@ implies has_name(after, other) == has_name(
            start,
            other,
        ) by {
            assert(lookup(after, other) == lookup(start, other));
        }
        assert forall|other: Seq<char>| other != name@ && has_name(after, other) implies lookup(
            after,
            other,
        )->0 == lookup(start, other)->0 by {
            assert(lookup(after, other) == lookup(start, other));
        }
        assert(attrs_map(after) =~= attrs_map(start).remove(name@));
    }
}

/// The attributes of a declared element: each name once, with its value,
/// in the order in which the names were first set.
#[derive(Debug, PartialEq, Eq)]
pub struct Attributes {
    list: Vec<(String, String)>,
}

impl View for Attributes {
    type V = Attrs;

    closed spec fn view(&self) -> Attrs {
        attrs_view(self.list@)
    }
}

impl Attributes {
    #[verifier::type_invariant]
    spec fn no_name_twice(&self) -> bool {
        names_unique(attrs_view(self.list@))
    }

    /// No attributes.
    pub fn new() -> (attributes: Self)
        ensures
            attributes@ == Seq::<(Seq<char>, Seq<char>)>::empty(),
    {
        let attributes = Attributes { list: Vec::new() };
        assert(attributes@ =~= Seq::<(Seq<char>, Seq<char>)>::empty());
        attributes
    }

    /// The attributes as a list. No name stands twice in it.
    pub fn entries(&self) -> (list: &Vec<(String, String)>)
        ensures
            attrs_view(list@) == self@,
            names_unique(self@),
    {
        proof {
            use_type_invariant(self);
        }
        &self.list
    }

    /// Gives the attribute called `name` the value `value`: a name that was
    /// there keeps its place, a new one goes to the end.
    pub fn set(&mut self, name: &str, value: &str)
        ensures
            final(self)@ == with_attr(old(self)@, name@, value@),
            names_unique(final(self)@),
    {
        proof {
            use_type_invariant(&*self);
            lemma_with_attr(self@, name@, value@);
        }
        // the list is taken out while it changes
        let mut list: Vec<(String, String)> = Vec::new();
        assert(names_unique(attrs_view(list@)));
        std::mem::swap(&mut self.list, &mut list);
        set_attr(&mut list, name, value);
        std::mem::swap(&mut self.list, &mut list);
    }

    /// Takes out the attribute called `name`, if there is one.
    pub fn unset(&mut self, name: &str)
        ensures
            final(self)@ == without_attr(old(self)@, name@),
            names_unique(final(self)@),
    {
        proof {
            use_type_invariant(&*self);
            lemma_without_attr(self@, name@);
        }
        // the list is taken out while it changes
        let mut list: Vec<(String, String)> = Vec::new();
        assert(names_unique(attrs_view(list@)));
        std::mem::swap(&mut self.list, &mut list);
        unset_attr(&mut list, name);
        std::mem::swap(&mut self.list, &mut list);
    }
}

} // verus!
