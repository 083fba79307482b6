//! Projections: the variables of a state, or of a part of it, listed in the
//! order of their paths.

use crate::order::{agree_until, text_le};
use crate::paths::{
    is_descendant, lemma_path_le_antisym, lemma_path_le_orders_string_forms, lemma_path_le_refl,
    path_lt, render, PathView, SPPath,
};
use crate::state_value::{CellView, StateValue};
use crate::state_view::{Entry, StateView};
use crate::values::{SPValue, ValueView};
use vstd::prelude::*;
use vstd::std_specs::cmp::PartialEqSpecImpl;

verus! {

/// Whether the paths of the entries strictly ascend in the order of paths.
pub open spec fn ascending(entries: Seq<Entry>) -> bool {
    forall|i: int, j: int|
        0 <= i < j < entries.len() ==> path_lt((#[trigger] entries[i]).0, (#[trigger] entries[j]).0)
}

/// Whether `entries` is the listing of `content`: every variable of
/// `content` once, with its cell, in the order of the paths, and nothing
/// else.
pub open spec fn lists(entries: Seq<Entry>, content: Map<PathView, CellView>) -> bool {
    &&& ascending(entries)
    &&& forall|i: int|
        0 <= i < entries.len() ==> content.contains_pair(
            (#[trigger] entries[i]).0,
            entries[i].1,
        )
    &&& forall|path: PathView| #[trigger]
        content.contains_key(path) ==> exists|i: int|
            0 <= i < entries.len() && (#[trigger] entries[i]).0 == path
}

/// A content has one listing only.
pub proof fn lemma_listing_unique(
    first: Seq<Entry>,
    second: Seq<Entry>,
    content: Map<PathView, CellView>,
)
    requires
        lists(first, content),
        lists(second, content),
    ensures
        first == second,
    decreases first.len(),
{
    if first.len() == 0 {
        if second.len() > 0 {
            assert(content.contains_key(second[0].0));
        }
        assert(first =~= second);
    } else {
        let top = first.last();
        assert(top == first[first.len() - 1]);
        assert(content.contains_key(top.0));
        let j = choose|j: int| 0 <= j < second.len() && (#[trigger] second[j]).0 == top.0;
        let other_top = second.last();
        assert(other_top == second[second.len() - 1]);
        assert(content.contains_key(other_top.0));
        let i = choose|i: int| 0 <= i < first.len() && (#[trigger] first[i]).0 == other_top.0;
        if top.0 != other_top.0 {
            assert(path_lt(second[j].0, second[second.len() - 1].0));
            assert(path_lt(first[i].0, first[first.len() - 1].0));
            lemma_path_le_antisym(top.0, other_top.0);
        }
        assert(top == other_top);
        let rest = content.remove(top.0);
        assert(lists(first.drop_last(), rest)) by {
            lemma_listing_without_top(first, content);
        }
        assert(lists(second.drop_last(), rest)) by {
            lemma_listing_without_top(second, content);
        }
        lemma_listing_unique(first.drop_last(), second.drop_last(), rest);
        assert(first =~= first.drop_last().push(top));
        assert(second =~= second.drop_last().push(top));
    }
}

/// A listing without its last entry is the listing of the content without
/// the path of that entry.
proof fn lemma_listing_without_top(entries: Seq<Entry>, content: Map<PathView, CellView>)
    requires
        lists(entries, content),
        entries.len() > 0,
    ensures
        lists(entries.drop_last(), content.remove(entries.last().0)),
{
    let front = entries.drop_last();
    let top = entries.last();
    let rest = content.remove(top.0);
    assert(top == entries[entries.len() - 1]);
    assert forall|i: int, j: int| 0 <= i < j < front.len() implies path_lt(
        (#[trigger] front[i]).0,
        (#[trigger] front[j]).0,
    ) by {
        assert(path_lt(entries[i].0, entries[j].0));
    }
    assert forall|i: int| 0 <= i < front.len() implies rest.contains_pair(
        (#[trigger] front[i]).0,
        front[i].1,
    ) by {
        assert(content.contains_pair(entries[i].0, entries[i].1));
        assert(path_lt(entries[i].0, entries[entries.len() - 1].0));
    }
    assert forall|path: PathView| #[trigger] rest.contains_key(path) implies exists|i: int|
        0 <= i < front.len() && (#[trigger] front[i]).0 == path by {
        assert(content.contains_key(path));
        let i = choose|i: int| 0 <= i < entries.len() && (#[trigger] entries[i]).0 == path;
        assert(front[i].0 == path);
    }
}

/// A listing lists one content only.
pub proof fn lemma_listing_decides_content(
    entries: Seq<Entry>,
    first: Map<PathView, CellView>,
    second: Map<PathView, CellView>,
)
    requires
        lists(entries, first),
        lists(entries, second),
    ensures
        first == second,
{
    assert forall|path: PathView| first.contains_key(path) == second.contains_key(path) by {
        if first.contains_key(path) {
            let i = choose|i: int| 0 <= i < entries.len() && (#[trigger] entries[i]).0 == path;
            assert(second.contains_pair(entries[i].0, entries[i].1));
        }
        if second.contains_key(path) {
            let i = choose|i: int| 0 <= i < entries.len() && (#[trigger] entries[i]).0 == path;
            assert(first.contains_pair(entries[i].0, entries[i].1));
        }
    }
    assert forall|path: PathView| first.contains_key(path) implies first[path] == second[path] by {
        let i = choose|i: int| 0 <= i < entries.len() && (#[trigger] entries[i]).0 == path;
        assert(first.contains_pair(entries[i].0, entries[i].1));
        assert(second.contains_pair(entries[i].0, entries[i].1));
    }
    assert(first =~= second);
}

/// Two contents are the same exactly if their listings are: states say the
/// same exactly if their projections are equal.
pub proof fn lemma_same_content_same_listing(
    first: Seq<Entry>,
    first_content: Map<PathView, CellView>,
    second: Seq<Entry>,
    second_content: Map<PathView, CellView>,
)
    requires
        lists(first, first_content),
        lists(second, second_content),
    ensures
        (first == second) == (first_content == second_content),
{
    if first == second {
        lemma_listing_decides_content(first, first_content, second_content);
    }
    if first_content == second_content {
        lemma_listing_unique(first, second, first_content);
    }
}

/// A listing is in the order of the string forms of its paths.
pub proof fn lemma_listing_orders_string_forms(
    entries: Seq<Entry>,
    content: Map<PathView, CellView>,
    i: int,
    j: int,
)
    requires
        lists(entries, content),
        0 <= i <= j < entries.len(),
    ensures
        text_le(render(entries[i].0), render(entries[j].0)),
{
    if i < j {
        assert(path_lt(entries[i].0, entries[j].0));
    } else {
        lemma_path_le_refl(entries[i].0);
    }
    lemma_path_le_orders_string_forms(entries[i].0, entries[j].0);
}

/// The listing of the part of a state below `parent` names exactly the
/// paths of the state that lie strictly below `parent`, each once and with
/// the cell it has in the state.
pub proof fn lemma_sub_listing_is_exact(
    state: StateView,
    parent: PathView,
    listing: Seq<Entry>,
    path: PathView,
)
    requires
        lists(listing, state.sub_content(parent)),
    ensures
        (exists|i: int| 0 <= i < listing.len() && (#[trigger] listing[i]).0 == path) == (
        state.contains(path) && is_descendant(path, parent)),
        forall|i: int|
            0 <= i < listing.len() ==> state.content().contains_pair(
                (#[trigger] listing[i]).0,
                listing[i].1,
            ),
        forall|i: int, j: int|
            0 <= i < j < listing.len() ==> (#[trigger] listing[i]).0 != (#[trigger] listing[j]).0,
{
    let part = state.sub_content(parent);
    if state.contains(path) && is_descendant(path, parent) {
        assert(part.contains_key(path));
    }
    if exists|i: int| 0 <= i < listing.len() && (#[trigger] listing[i]).0 == path {
        let i = choose|i: int| 0 <= i < listing.len() && (#[trigger] listing[i]).0 == path;
        assert(part.contains_pair(listing[i].0, listing[i].1));
    }
    assert forall|i: int| 0 <= i < listing.len() implies state.content().contains_pair(
        (#[trigger] listing[i]).0,
        listing[i].1,
    ) by {
        assert(part.contains_pair(listing[i].0, listing[i].1));
    }
    assert forall|i: int, j: int| 0 <= i < j < listing.len() implies (#[trigger] listing[i]).0 != (
    #[trigger] listing[j]).0 by {
        assert(path_lt(listing[i].0, listing[j].0));
    }
}

/// A view of the variables of a state in the order of their paths, with the
/// generation of the state it was taken from.
#[derive(Debug)]
pub struct StateProjection<'a> {
    pub projection: Vec<(&'a SPPath, &'a StateValue)>,
    pub id: u128,
}

impl<'a> View for StateProjection<'a> {
    type V = Seq<Entry>;

    open spec fn view(&self) -> Seq<Entry> {
        self.projection@.map_values(|entry: (&'a SPPath, &'a StateValue)| (entry.0@, entry.1@))
    }
}

impl<'a> Clone for StateProjection<'a> {
    fn clone(&self) -> (copy: Self)
        ensures
            copy@ == self@,
            copy.id == self.id,
    {
        let mut entries: Vec<(&'a SPPath, &'a StateValue)> = Vec::new();
        let mut i: usize = 0;
        while i < self.projection.len()
            invariant
                i <= self.projection.len(),
                entries@ == self.projection@.take(i as int),
            decreases self.projection.len() - i,
        {
            let entry = &self.projection[i];
            entries.push((entry.0, entry.1));
            assert(self.projection@.take(i + 1) =~= self.projection@.take(i as int).push(
                self.projection@[i as int],
            ));
            i += 1;
        }
        assert(self.projection@.take(i as int) =~= self.projection@);
        StateProjection { projection: entries, id: self.id }
    }
}

impl<'a> PartialEq for StateProjection<'a> {
    fn eq(&self, other: &Self) -> (same: bool) {
        if self.projection.len() != other.projection.len() {
            return false;
        }
        let mut i: usize = 0;
        while i < self.projection.len()
            invariant
                self.projection.len() == other.projection.len(),
                agree_until(self@, other@, i as int),
            decreases self.projection.len() - i,
        {
            let mine = &self.projection[i];
            let theirs = &other.projection[i];
            if !(*mine.0 == *theirs.0 && *mine.1 == *theirs.1) {
                assert(self@[i as int] != other@[i as int]);
                return false;
            }
            i += 1;
        }
        assert(self@ =~= other@);
        true
    }
}

impl<'a> PartialEqSpecImpl for StateProjection<'a> {
    open spec fn obeys_eq_spec() -> bool {
        true
    }

    /// Two projections are equal if they list the same entries in the same
    /// order, whatever the generations.
    open spec fn eq_spec(&self, other: &Self) -> bool {
        self@ == other@
    }
}

/// The entries that owned pairs of a path and a cell stand for.
pub open spec fn pair_views(pairs: Seq<(SPPath, StateValue)>) -> Seq<Entry> {
    pairs.map_values(|pair: (SPPath, StateValue)| (pair.0@, pair.1@))
}

/// The paths and values that owned pairs of a path and a value stand for.
pub open spec fn value_pair_views(pairs: Seq<(SPPath, SPValue)>) -> Seq<(PathView, ValueView)> {
    pairs.map_values(|pair: (SPPath, SPValue)| (pair.0@, pair.1@))
}

impl<'a> StateProjection<'a> {
    /// Copies of the listed paths and cells, in the same order.
    pub fn clone_vec(&self) -> (pairs: Vec<(SPPath, StateValue)>)
        ensures
            pair_views(pairs@) == self@,
    {
        let mut pairs: Vec<(SPPath, StateValue)> = Vec::new();
        let mut i: usize = 0;
        while i < self.projection.len()
            invariant
                i <= self.projection.len(),
                pairs.len() == i,
                forall|j: int| 0 <= j < i ==> pair_views(pairs@)[j] == self@[j],
            decreases self.projection.len() - i,
        {
            let entry = &self.projection[i];
            pairs.push((entry.0.clone(), entry.1.clone()));
            i += 1;
        }
        assert(pair_views(pairs@) =~= self@);
        pairs
    }

    /// Copies of the listed paths, each with the value of its cell: the
    /// proposed next value if there is one, else the current value.
    pub fn clone_vec_value(&self) -> (pairs: Vec<(SPPath, SPValue)>)
        ensures
            value_pair_views(pairs@) == self@.map_values(|entry: Entry| (entry.0, entry.1.value())),
    {
        let mut pairs: Vec<(SPPath, SPValue)> = Vec::new();
        let mut i: usize = 0;
        while i < self.projection.len()
            invariant
                i <= self.projection.len(),
                pairs.len() == i,
                forall|j: int|
                    0 <= j < i ==> (#[trigger] pairs@[j]).0@ == self@[j].0 && pairs@[j].1@
                        == self@[j].1.value(),
            decreases self.projection.len() - i,
        {
            let entry = &self.projection[i];
            let path = entry.0.clone();
            let value = entry.1.value().clone();
            assert(self@[i as int] == (entry.0@, entry.1@));
            pairs.push((path, value));
            i += 1;
        }
        assert(value_pair_views(pairs@) =~= self@.map_values(
            |entry: Entry| (entry.0, entry.1.value()),
        ));
        pairs
    }
}

} // verus!
