//! The state: an indexed set of variables, each with its cell.

use crate::generation::{first_generation, is_random_uuid, next_generation};
use crate::order::Rank;
use crate::paths::{
    is_descendant, lemma_path_le_antisym, lemma_path_le_total, lemma_path_le_trans,
    lemma_prefix_injective, path_lt, render, PathView, SPPath,
};
use crate::projection::{
    lemma_same_content_same_listing, lists, pair_views, value_pair_views, StateProjection,
};
use crate::sperror::{SPError, SPResult};
use crate::state_value::{AssignStateValue, AssignView, CellView, StateValue};
use crate::state_view::{
    fresh_entries, lemma_path_of_slot, lemma_put, lemma_put_all, lemma_put_all_with_id,
    lemma_slot_of_path, HandleView, StateView,
};
use crate::values::{SPValue, ValueView};
use vstd::prelude::*;
use vstd::std_specs::cmp::PartialEqSpecImpl;

verus! {

/// A resolved path: the path, the slot it had when it was resolved, and the
/// generation of the state at that time.
#[derive(Debug)]
pub struct StatePath {
    path: SPPath,
    index: usize,
    state_id: u128,
}

impl View for StatePath {
    type V = HandleView;

    closed spec fn view(&self) -> HandleView {
        HandleView { path: self.path@, index: self.index as int, state_id: self.state_id }
    }
}

impl Clone for StatePath {
    fn clone(&self) -> (copy: Self)
        ensures
            copy@ == self@,
    {
        StatePath { path: self.path.clone(), index: self.index, state_id: self.state_id }
    }
}

impl PartialEq for StatePath {
    fn eq(&self, other: &Self) -> (same: bool) {
        self.path == other.path && self.index == other.index && self.state_id == other.state_id
    }
}

impl PartialEqSpecImpl for StatePath {
    open spec fn obeys_eq_spec() -> bool {
        true
    }

    open spec fn eq_spec(&self, other: &Self) -> bool {
        self@ == other@
    }
}

impl StatePath {
    /// The path that was resolved.
    pub fn path(&self) -> (path: &SPPath)
        ensures
            path@ == self@.path,
    {
        &self.path
    }

    /// The slot that the path had when it was resolved.
    pub fn index(&self) -> (index: usize)
        ensures
            index == self@.index,
    {
        self.index
    }

    /// The generation of the state when the path was resolved.
    pub fn state_id(&self) -> (id: u128)
        ensures
            id == self@.state_id,
    {
        self.state_id
    }
}

/// One variable of a state.
#[derive(Debug)]
struct Slot {
    path: SPPath,
    value: StateValue,
}

/// The paths of a sequence of slots.
spec fn slot_paths(slots: Seq<Slot>) -> Seq<PathView> {
    slots.map_values(|slot: Slot| slot.path@)
}

/// The cells of a sequence of slots.
spec fn slot_cells(slots: Seq<Slot>) -> Seq<CellView> {
    slots.map_values(|slot: Slot| slot.value@)
}

/// The state that slots and a generation stand for.
spec fn view_of(slots: Seq<Slot>, id: u128) -> StateView {
    StateView { paths: slot_paths(slots), cells: slot_cells(slots), id }
}

/// The proposals that pairs of a handle and a value stand for.
pub open spec fn batch_views(batch: Seq<(StatePath, SPValue)>) -> Seq<(HandleView, ValueView)> {
    batch.map_values(|pair: (StatePath, SPValue)| (pair.0@, pair.1@))
}

/// The path that an optional parent stands for.
spec fn parent_view(below: Option<&SPPath>) -> Option<PathView> {
    match below {
        Some(parent) => Some(parent@),
        None => None,
    }
}

/// Whether the slot is one to list: any slot if `below` is nothing, else one
/// whose path lies strictly below it.
spec fn selected(paths: Seq<PathView>, below: Option<PathView>, slot: int) -> bool {
    match below {
        Some(parent) => is_descendant(paths[slot], parent),
        None => true,
    }
}

/// Whether the paths of the slots strictly ascend in the given order.
spec fn slots_ascend(order: Seq<usize>, paths: Seq<PathView>) -> bool {
    forall|i: int, j: int|
        0 <= i < j < order.len() ==> path_lt(
            paths[(#[trigger] order[i]) as int],
            paths[(#[trigger] order[j]) as int],
        )
}

/// The strict order of paths is transitive.
proof fn lemma_path_lt_trans(a: PathView, b: PathView, c: PathView)
    requires
        path_lt(a, b),
        path_lt(b, c),
    ensures
        path_lt(a, c),
{
    lemma_path_le_trans(a, b, c);
    if a == c {
        lemma_path_le_antisym(a, b);
    }
}

/// A state: variables found by their paths, each with a cell in a slot of its
/// own, and a generation that changes whenever the set of paths does.
#[derive(Debug)]
pub struct SPState {
    slots: Vec<Slot>,
    id: u128,
}

impl View for SPState {
    type V = StateView;

    closed spec fn view(&self) -> StateView {
        view_of(self.slots@, self.id)
    }
}

/// The slot among `slots` that holds `path`.
fn find_slot(slots: &Vec<Slot>, path: &SPPath) -> (found: Option<usize>)
    ensures
        match found {
            Some(i) => i < slots.len() && slot_paths(slots@)[i as int] == path@,
            None => !slot_paths(slots@).contains(path@),
        },
{
    let mut i: usize = 0;
    while i < slots.len()
        invariant
            i <= slots.len(),
            forall|j: int| 0 <= j < i ==> slot_paths(slots@)[j] != path@,
        decreases slots.len() - i,
    {
        if slots[i].path == *path {
            return Some(i);
        }
        i += 1;
    }
    None
}

/// Gives `path` the cell `value` among `slots`: in its slot if it has one,
/// else in a new slot at the end. Returns whether the path is new.
fn put_slot(slots: &mut Vec<Slot>, path: SPPath, value: StateValue) -> (is_new: bool)
    requires
        view_of(old(slots)@, 0).wf(),
    ensures
        is_new == !slot_paths(old(slots)@).contains(path@),
        view_of(final(slots)@, 0) == view_of(old(slots)@, 0).put(path@, value@),
        view_of(final(slots)@, 0).wf(),
{
    proof {
        lemma_put(view_of(slots@, 0), path@, value@);
    }
    match find_slot(slots, &path) {
        Some(i) => {
            proof {
                lemma_slot_of_path(view_of(slots@, 0), i as int);
            }
            slots[i].value = value;
            proof {
                assert(slot_paths(slots@) =~= slot_paths(old(slots)@));
                assert(slot_cells(slots@) =~= slot_cells(old(slots)@).update(i as int, value@));
            }
            false
        },
        None => {
            slots.push(Slot { path, value });
            proof {
                assert(slot_paths(slots@) =~= slot_paths(old(slots)@).push(path@));
                assert(slot_cells(slots@) =~= slot_cells(old(slots)@).push(value@));
            }
            true
        },
    }
}

/// Whether `texts` holds the string forms of the paths of the slots in
/// `order`, all of them slots before `slot`.
spec fn texts_match(order: Seq<usize>, texts: Seq<String>, paths: Seq<PathView>, slot: int) -> bool {
    &&& order.len() == texts.len()
    &&& forall|i: int| 0 <= i < order.len() ==> (#[trigger] order[i]) < slot
    &&& forall|i: int|
        0 <= i < order.len() ==> (#[trigger] texts[i])@ == render(paths[order[i] as int])
}

/// The place in `order` at which `slot` belongs: the slots before it have
/// paths that come before the path of `slot`, the slots from it on have paths
/// that come after. Found by bisection.
fn insertion_point(
    slots: &Vec<Slot>,
    order: &Vec<usize>,
    texts: &Vec<String>,
    slot: usize,
    text: &str,
) -> (at: usize)
    requires
        slot < slots.len(),
        slot_paths(slots@).no_duplicates(),
        texts_match(order@, texts@, slot_paths(slots@), slot as int),
        slots_ascend(order@, slot_paths(slots@)),
        text@ == render(slot_paths(slots@)[slot as int]),
    ensures
        at <= order.len(),
        forall|i: int|
            0 <= i < at ==> path_lt(
                slot_paths(slots@)[(#[trigger] order[i]) as int],
                slot_paths(slots@)[slot as int],
            ),
        forall|i: int|
            at <= i < order.len() ==> path_lt(
                slot_paths(slots@)[slot as int],
                slot_paths(slots@)[(#[trigger] order[i]) as int],
            ),
{
    let ghost paths = slot_paths(slots@);
    let mut low: usize = 0;
    let mut high: usize = order.len();
    while low < high
        invariant
            low <= high <= order.len(),
            slot < slots.len(),
            paths == slot_paths(slots@),
            paths.no_duplicates(),
            texts_match(order@, texts@, paths, slot as int),
            slots_ascend(order@, paths),
            text@ == render(paths[slot as int]),
            forall|i: int|
                0 <= i < low ==> path_lt(paths[(#[trigger] order[i]) as int], paths[slot as int]),
            forall|i: int|
                high <= i < order.len() ==> path_lt(
                    paths[slot as int],
                    paths[(#[trigger] order[i]) as int],
                ),
        decreases high - low,
    {
        let middle = low + (high - low) / 2;
        let there = order[middle];
        let rank = slots[slot].path.rank_with_text(
            text,
            &slots[there].path,
            texts[middle].as_str(),
        );
        proof {
            lemma_path_le_total(paths[slot as int], paths[there as int]);
        }
        match rank {
            Rank::Before => {
                assert forall|i: int| middle <= i < order.len() implies path_lt(
                    paths[slot as int],
                    paths[(#[trigger] order[i]) as int],
                ) by {
                    if i > middle {
                        assert(path_lt(paths[order[middle as int] as int], paths[order[i] as int]));
                        lemma_path_lt_trans(
                            paths[slot as int],
                            paths[there as int],
                            paths[order[i] as int],
                        );
                    }
                }
                high = middle;
            },
            _ => {
                assert forall|i: int| 0 <= i < middle + 1 implies path_lt(
                    paths[(#[trigger] order[i]) as int],
                    paths[slot as int],
                ) by {
                    if i < middle {
                        assert(path_lt(paths[order[i] as int], paths[order[middle as int] as int]));
                        lemma_path_lt_trans(
                            paths[order[i] as int],
                            paths[there as int],
                            paths[slot as int],
                        );
                    }
                }
                low = middle + 1;
            },
        }
    }
    low
}

/// The slots to list, in the order of their paths: all slots if `below` is
/// nothing, else those whose paths lie strictly below it.
fn ordered_slots(slots: &Vec<Slot>, below: Option<&SPPath>) -> (order: Vec<usize>)
    requires
        slot_paths(slots@).no_duplicates(),
    ensures
        forall|i: int|
            0 <= i < order.len() ==> (#[trigger] order[i]) < slots.len() && selected(
                slot_paths(slots@),
                parent_view(below),
                order[i] as int,
            ),
        slots_ascend(order@, slot_paths(slots@)),
        forall|slot: int|
            0 <= slot < slots.len() && #[trigger] selected(
                slot_paths(slots@),
                parent_view(below),
                slot,
            ) ==> order@.contains(slot as usize),
{
    let ghost paths = slot_paths(slots@);
    let ghost parent = parent_view(below);
    let mut order: Vec<usize> = Vec::new();
    let mut texts: Vec<String> = Vec::new();
    let mut slot: usize = 0;
    while slot < slots.len()
        invariant
            slot <= slots.len(),
            paths == slot_paths(slots@),
            paths.no_duplicates(),
            parent == parent_view(below),
            texts_match(order@, texts@, paths, slot as int),
            slots_ascend(order@, paths),
            forall|i: int|
                0 <= i < order.len() ==> selected(paths, parent, (#[trigger] order[i]) as int),
            forall|earlier: int|
                0 <= earlier < slot && #[trigger] selected(paths, parent, earlier)
                    ==> order@.contains(earlier as usize),
        decreases slots.len() - slot,
    {
        let listed = match below {
            Some(parent_path) => slots[slot].path.is_child_of(parent_path),
            None => true,
        };
        if listed {
            let text = slots[slot].path.to_string();
            let at = insertion_point(slots, &order, &texts, slot, text.as_str());
            let ghost before = order@;
            let ghost texts_before = texts@;
            order.insert(at, slot);
            texts.insert(at, text);
            proof {
                assert forall|i: int, j: int| 0 <= i < j < order.len() implies path_lt(
                    paths[(#[trigger] order[i]) as int],
                    paths[(#[trigger] order[j]) as int],
                ) by {
                    if j < at {
                        assert(order[i] == before[i] && order[j] == before[j]);
                    } else if j == at {
                        assert(order[i] == before[i]);
                    } else if i < at {
                        assert(order[i] == before[i] && order[j] == before[j - 1]);
                    } else if i == at {
                        assert(order[j] == before[j - 1]);
                    } else {
                        assert(order[i] == before[i - 1] && order[j] == before[j - 1]);
                    }
                }
                assert forall|earlier: int|
                    0 <= earlier < slot + 1 && #[trigger] selected(
                        paths,
                        parent,
                        earlier,
                    ) implies order@.contains(earlier as usize) by {
                    if earlier == slot {
                        assert(order[at as int] == slot);
                    } else {
                        let i = choose|i: int|
                            0 <= i < before.len() && before[i] == earlier as usize;
                        if i < at {
                            assert(order[i] == before[i]);
                        } else {
                            assert(order[i + 1] == before[i]);
                        }
                    }
                }
                assert forall|i: int| 0 <= i < order.len() implies (#[trigger] order[i]) < slot + 1
                    && selected(paths, parent, order[i] as int) by {
                    if i < at {
                        assert(order[i] == before[i]);
                    } else if i > at {
                        assert(order[i] == before[i - 1]);
                    }
                }
                assert forall|i: int| 0 <= i < order.len() implies (#[trigger] texts[i])@ == render(
                    paths[order[i] as int],
                ) by {
                    if i < at {
                        assert(order[i] == before[i] && texts[i] == texts_before[i]);
                    } else if i > at {
                        assert(order[i] == before[i - 1] && texts[i] == texts_before[i - 1]);
                    }
                }
            }
        } else {
            assert forall|i: int| 0 <= i < order.len() implies (#[trigger] order[i]) < slot + 1 by {}
        }
        slot += 1;
    }
    order
}

impl SPState {
    #[verifier::type_invariant]
    spec fn layout_invariant(&self) -> bool {
        self@.wf() && is_random_uuid(self.id)
    }

    /// A state without variables.
    pub fn new() -> (state: SPState)
        ensures
            state@ == StateView::empty(state@.id),
    {
        let state = SPState { slots: Vec::new(), id: first_generation() };
        assert(state@.paths =~= Seq::empty() && state@.cells =~= Seq::empty());
        state
    }

    /// The state in which each path has the value paired with it, as if the
    /// pairs had been added to an empty state one after the other.
    pub fn new_from_values(hm: &[(SPPath, SPValue)]) -> (state: SPState)
        ensures
            state@.wf(),
            state@ == StateView::empty(state@.id).put_all(
                fresh_entries(value_pair_views(hm@)),
            ),
    {
        let ghost entries = fresh_entries(value_pair_views(hm@));
        let mut cells: Vec<(SPPath, StateValue)> = Vec::new();
        let mut i: usize = 0;
        while i < hm.len()
            invariant
                i <= hm.len(),
                cells.len() == i,
                entries == fresh_entries(value_pair_views(hm@)),
                forall|j: int| 0 <= j < i ==> pair_views(cells@)[j] == entries[j],
            decreases hm.len() - i,
        {
            let pair = &hm[i];
            cells.push((pair.0.clone(), StateValue::new(pair.1.clone())));
            i += 1;
        }
        assert(pair_views(cells@) =~= entries);
        let mut state = SPState::new();
        let ghost first_id = state@.id;
        state.add_state_variables(cells);
        proof {
            lemma_put_all_with_id(StateView::empty(0), entries, state@.id);
            lemma_put_all_with_id(StateView::empty(0), entries, first_id);
        }
        state
    }

    /// The state in which each path has the cell paired with it, as if the
    /// pairs had been added to an empty state one after the other.
    pub fn new_from_state_values(hm: &[(SPPath, StateValue)]) -> (state: SPState)
        ensures
            state@.wf(),
            state@ == StateView::empty(state@.id).put_all(pair_views(hm@)),
    {
        let ghost entries = pair_views(hm@);
        let mut cells: Vec<(SPPath, StateValue)> = Vec::new();
        let mut i: usize = 0;
        while i < hm.len()
            invariant
                i <= hm.len(),
                cells.len() == i,
                entries == pair_views(hm@),
                forall|j: int| 0 <= j < i ==> pair_views(cells@)[j] == entries[j],
            decreases hm.len() - i,
        {
            let pair = &hm[i];
            cells.push((pair.0.clone(), pair.1.clone()));
            i += 1;
        }
        assert(pair_views(cells@) =~= entries);
        let mut state = SPState::new();
        let ghost first_id = state@.id;
        state.add_state_variables(cells);
        proof {
            lemma_put_all_with_id(StateView::empty(0), entries, state@.id);
            lemma_put_all_with_id(StateView::empty(0), entries, first_id);
        }
        state
    }

    /// Gives the variable of that path the cell `value`. A path that the state
    /// has keeps its slot, and the state its generation; a new path gets a
    /// slot at the end, and the state a new generation.
    pub fn add_state_variable(&mut self, path: SPPath, value: StateValue)
        ensures
            final(self)@.wf(),
            final(self)@ == old(self)@.put(path@, value@).with_id(final(self)@.id),
            (final(self)@.id == old(self)@.id) == old(self)@.contains(path@),
            final(self)@.content() == old(self)@.content().insert(path@, value@),
    {
        proof {
            use_type_invariant(&*self);
            lemma_put(self@, path@, value@);
            assert(self@.put(path@, value@).content() =~= self@.put(path@, value@).with_id(
                self@.id,
            ).content());
        }
        let mut slots: Vec<Slot> = Vec::new();
        std::mem::swap(&mut self.slots, &mut slots);
        if put_slot(&mut slots, path, value) {
            self.id = next_generation(self.id);
        }
        self.slots = slots;
    }

    /// Gives each path the cell paired with it, one pair after the other. The
    /// state gets a new generation if a path among them is new to it.
    pub fn add_state_variables(&mut self, map: Vec<(SPPath, StateValue)>)
        ensures
            final(self)@.wf(),
            final(self)@ == old(self)@.put_all(pair_views(map@)).with_id(final(self)@.id),
            (final(self)@.id == old(self)@.id) == (final(self)@.paths == old(self)@.paths),
    {
        proof {
            use_type_invariant(&*self);
        }
        let ghost entries = pair_views(map@);
        let ghost before = view_of(self.slots@, 0);
        let mut slots: Vec<Slot> = Vec::new();
        std::mem::swap(&mut self.slots, &mut slots);
        let mut grown = false;
        for pair in iter: map
            invariant
                entries == pair_views(map@),
                before.wf(),
                view_of(slots@, 0).wf(),
                view_of(slots@, 0) == before.put_all(entries.take(iter.index() as int)),
                grown == (view_of(slots@, 0).paths != before.paths),
                self.slots@.len() == 0,
                self.id == old(self).id,
                is_random_uuid(self.id),
        {
            proof {
                let i = iter.index() as int;
                assert(entries.take(i + 1).drop_last() =~= entries.take(i));
                assert(entries.take(i + 1).last() == (pair.0@, pair.1@));
                lemma_put_all(before, entries.take(i));
                lemma_put_all(before, entries.take(i + 1));
                lemma_put(before.put_all(entries.take(i)), pair.0@, pair.1@);
            }
            if put_slot(&mut slots, pair.0, pair.1) {
                grown = true;
            }
        }
        assert(entries.take(map@.len() as int) =~= entries);
        if grown {
            self.id = next_generation(self.id);
        }
        proof {
            lemma_put_all_with_id(before, entries, old(self).id);
            lemma_put_all(old(self)@, entries);
        }
        self.slots = slots;
    }

    /// Gives the variable of that path the value `value` in a cell without
    /// history. A path that the state has keeps its slot, and the state its
    /// generation; a new path gets a slot at the end, and the state a new
    /// generation.
    pub fn add_variable(&mut self, path: SPPath, value: SPValue)
        ensures
            final(self)@.wf(),
            final(self)@ == old(self)@.put(path@, CellView::fresh(value@)).with_id(
                final(self)@.id,
            ),
            (final(self)@.id == old(self)@.id) == old(self)@.contains(path@),
            final(self)@.content() == old(self)@.content().insert(
                path@,
                CellView::fresh(value@),
            ),
    {
        let new_v = StateValue::new(value);
        self.add_state_variable(path, new_v);
    }

    /// Gives each path the value paired with it in a cell without history,
    /// one pair after the other. The state gets a new generation if a path
    /// among them is new to it.
    pub fn add_variables(&mut self, map: Vec<(SPPath, SPValue)>)
        ensures
            final(self)@.wf(),
            final(self)@ == old(self)@.put_all(fresh_entries(value_pair_views(map@))).with_id(
                final(self)@.id,
            ),
            (final(self)@.id == old(self)@.id) == (final(self)@.paths == old(self)@.paths),
    {
        let ghost entries = fresh_entries(value_pair_views(map@));
        let mut cells: Vec<(SPPath, StateValue)> = Vec::new();
        for pair in iter: map
            invariant
                entries == fresh_entries(value_pair_views(map@)),
                cells.len() == iter.index(),
                forall|j: int| 0 <= j < cells.len() ==> pair_views(cells@)[j] == entries[j],
        {
            cells.push((pair.0, StateValue::new(pair.1)));
        }
        assert(pair_views(cells@) =~= entries);
        self.add_state_variables(cells);
    }

    /// The number of variables, which is the number of slots.
    pub fn len(&self) -> (count: usize)
        ensures
            self@.wf(),
            count == self@.paths.len(),
            count == self@.cells.len(),
    {
        proof {
            use_type_invariant(self);
        }
        self.slots.len()
    }

    /// The generation of the state's layout.
    pub fn id(&self) -> (id: u128)
        ensures
            id == self@.id,
            is_random_uuid(id),
    {
        proof {
            use_type_invariant(self);
        }
        self.id
    }

    /// Resolves a path: the handle for fast access to its variable, or
    /// nothing if the state has no such variable.
    pub fn state_path(&self, path: &SPPath) -> (handle: Option<StatePath>)
        ensures
            self@.wf(),
            match handle {
                Some(h) => self@.resolved(path@) == Some(h@),
                None => self@.resolved(path@) is None,
            },
            handle is Some == self@.content().contains_key(path@),
            handle matches Some(h) ==> self@.accepts(h@) && self@.paths[h@.index] == path@,
    {
        proof {
            use_type_invariant(self);
        }
        match find_slot(&self.slots, path) {
            Some(i) => {
                proof {
                    lemma_slot_of_path(self@, i as int);
                }
                Some(StatePath { path: path.clone(), index: i, state_id: self.id })
            },
            None => None,
        }
    }

    /// Whether the handle was resolved against the current layout.
    pub fn check_state_path(&self, state_path: &StatePath) -> (valid: bool)
        ensures
            valid == self@.accepts(state_path@),
    {
        state_path.state_id == self.id && self.slots.len() > state_path.index
    }

    /// The cell that the handle leads to: the cell of its slot if the handle
    /// was resolved against the current layout, else the cell of its path if
    /// the state still has that path.
    pub fn state_value(&self, state_path: &StatePath) -> (cell: Option<&StateValue>)
        ensures
            self@.wf(),
            match cell {
                Some(c) => self@.read(state_path@) == Some(c@),
                None => self@.read(state_path@) is None,
            },
    {
        proof {
            use_type_invariant(self);
        }
        if self.check_state_path(state_path) {
            Some(&self.slots[state_path.index].value)
        } else {
            self.state_value_from_path(&state_path.path)
        }
    }

    /// The current value of the variable that the handle leads to.
    pub fn sp_value(&self, state_path: &StatePath) -> (value: Option<&SPValue>)
        ensures
            self@.wf(),
            match value {
                Some(v) => self@.read(state_path@) is Some && self@.read(state_path@)->0.current
                    == v@,
                None => self@.read(state_path@) is None,
            },
    {
        match self.state_value(state_path) {
            Some(cell) => Some(cell.current_value()),
            None => None,
        }
    }

    /// The cell of the variable of that path.
    pub fn state_value_from_path(&self, path: &SPPath) -> (cell: Option<&StateValue>)
        ensures
            self@.wf(),
            match cell {
                Some(c) => self@.read_path(path@) == Some(c@),
                None => self@.read_path(path@) is None,
            },
    {
        proof {
            use_type_invariant(self);
        }
        match find_slot(&self.slots, path) {
            Some(i) => {
                proof {
                    lemma_slot_of_path(self@, i as int);
                }
                Some(&self.slots[i].value)
            },
            None => None,
        }
    }

    /// The cell in slot `i`.
    pub fn state_value_from_index(&self, i: usize) -> (cell: &StateValue)
        requires
            i < self@.cells.len(),
        ensures
            cell@ == self@.cells[i as int],
    {
        &self.slots[i].value
    }

    /// The current value of the variable of that path.
    pub fn sp_value_from_path(&self, path: &SPPath) -> (value: Option<&SPValue>)
        ensures
            self@.wf(),
            match value {
                Some(v) => self@.read_path(path@) is Some && self@.read_path(path@)->0.current
                    == v@,
                None => self@.read_path(path@) is None,
            },
    {
        match self.state_value_from_path(path) {
            Some(cell) => Some(cell.current_value()),
            None => None,
        }
    }

    /// The current value of the variable in slot `i`.
    pub fn sp_value_from_index(&self, i: usize) -> (value: &SPValue)
        requires
            i < self@.cells.len(),
        ensures
            value@ == self@.cells[i as int].current,
    {
        self.state_value_from_index(i).current_value()
    }

    /// The variables listed in `order`, each with its cell.
    fn listed<'a>(&'a self, order: &Vec<usize>) -> (entries: Vec<(&'a SPPath, &'a StateValue)>)
        requires
            forall|i: int| 0 <= i < order.len() ==> (#[trigger] order[i]) < self@.paths.len(),
        ensures
            entries.len() == order.len(),
            forall|i: int|
                0 <= i < order.len() ==> (#[trigger] entries[i]).0@ == self@.paths[order[i] as int]
                    && entries[i].1@ == self@.cells[order[i] as int],
    {
        let mut entries: Vec<(&'a SPPath, &'a StateValue)> = Vec::new();
        let mut i: usize = 0;
        while i < order.len()
            invariant
                i <= order.len(),
                entries.len() == i,
                forall|j: int| 0 <= j < order.len() ==> (#[trigger] order[j]) < self@.paths.len(),
                forall|j: int|
                    0 <= j < i ==> (#[trigger] entries[j]).0@ == self@.paths[order[j] as int]
                        && entries[j].1@ == self@.cells[order[j] as int],
            decreases order.len() - i,
        {
            let slot = &self.slots[order[i]];
            entries.push((&slot.path, &slot.value));
            i += 1;
        }
        entries
    }

    /// The projection of the state: all its variables with their cells, in
    /// the order of their paths.
    pub fn projection<'a>(&'a self) -> (listing: StateProjection<'a>)
        ensures
            self@.wf(),
            lists(listing@, self@.content()),
            listing.id == self@.id,
    {
        proof {
            use_type_invariant(self);
        }
        let order = ordered_slots(&self.slots, None);
        let entries = self.listed(&order);
        let listing = StateProjection { projection: entries, id: self.id };
        proof {
            let state = self@;
            assert forall|i: int, j: int| 0 <= i < j < listing@.len() implies path_lt(
                (#[trigger] listing@[i]).0,
                (#[trigger] listing@[j]).0,
            ) by {
                assert(path_lt(state.paths[order[i] as int], state.paths[order[j] as int]));
            }
            assert forall|i: int| 0 <= i < listing@.len() implies state.content().contains_pair(
                (#[trigger] listing@[i]).0,
                listing@[i].1,
            ) by {
                lemma_slot_of_path(state, order[i] as int);
            }
            assert forall|path: PathView| #[trigger]
                state.content().contains_key(path) implies exists|i: int|
                0 <= i < listing@.len() && (#[trigger] listing@[i]).0 == path by {
                lemma_path_of_slot(state, path);
                let slot = state.slot_of(path);
                assert(selected(state.paths, None, slot));
                let i = choose|i: int| 0 <= i < order.len() && order[i] == slot as usize;
                assert(listing@[i].0 == path);
            }
        }
        listing
    }

    /// The projection of the part of the state below `path`: the variables
    /// whose paths lie strictly below it, with their cells, in the order of
    /// their paths.
    pub fn sub_state_projection<'a>(&'a self, path: &SPPath) -> (listing: StateProjection<'a>)
        ensures
            self@.wf(),
            lists(listing@, self@.sub_content(path@)),
            listing.id == self@.id,
    {
        proof {
            use_type_invariant(self);
        }
        let order = ordered_slots(&self.slots, Some(path));
        let entries = self.listed(&order);
        let listing = StateProjection { projection: entries, id: self.id };
        proof {
            let state = self@;
            let part = state.sub_content(path@);
            assert forall|i: int, j: int| 0 <= i < j < listing@.len() implies path_lt(
                (#[trigger] listing@[i]).0,
                (#[trigger] listing@[j]).0,
            ) by {
                assert(path_lt(state.paths[order[i] as int], state.paths[order[j] as int]));
            }
            assert forall|i: int| 0 <= i < listing@.len() implies part.contains_pair(
                (#[trigger] listing@[i]).0,
                listing@[i].1,
            ) by {
                lemma_slot_of_path(state, order[i] as int);
                assert(selected(state.paths, Some(path@), order[i] as int));
            }
            assert forall|key: PathView| #[trigger] part.contains_key(key) implies exists|i: int|
                0 <= i < listing@.len() && (#[trigger] listing@[i]).0 == key by {
                lemma_path_of_slot(state, key);
                let slot = state.slot_of(key);
                assert(selected(state.paths, Some(path@), slot));
                let i = choose|i: int| 0 <= i < order.len() && order[i] == slot as usize;
                assert(listing@[i].0 == key);
            }
        }
        listing
    }

    /// Whether every variable of this state below `path` is a variable of
    /// `state` too, with the same current value. Nothing is copied.
    pub fn is_sub_state_the_same(&self, state: &SPState, path: &SPPath) -> (same: bool)
        ensures
            same == self@.agrees_below(state@, path@),
    {
        proof {
            use_type_invariant(self);
            use_type_invariant(state);
        }
        let mut i: usize = 0;
        while i < self.slots.len()
            invariant
                i <= self.slots.len(),
                self@.wf(),
                state@.wf(),
                forall|j: int|
                    0 <= j < i && is_descendant(#[trigger] self@.paths[j], path@)
                        ==> state@.contains(self@.paths[j]) && state@.content()[self@.paths[j]].current
                        == self@.cells[j].current,
            decreases self.slots.len() - i,
        {
            let slot = &self.slots[i];
            if slot.path.is_child_of(path) {
                proof {
                    lemma_slot_of_path(self@, i as int);
                }
                let matches = match find_slot(&state.slots, &slot.path) {
                    Some(j) => {
                        proof {
                            lemma_slot_of_path(state@, j as int);
                        }
                        *state.slots[j].value.current_value() == *slot.value.current_value()
                    },
                    None => false,
                };
                if !matches {
                    assert(self@.contains(self@.paths[i as int]));
                    return false;
                }
            }
            i += 1;
        }
        proof {
            assert forall|key: PathView|
                #![trigger self@.contains(key)]
                self@.contains(key) && is_descendant(key, path@) implies state@.contains(key)
                && state@.content()[key].current == self@.content()[key].current by {
                lemma_path_of_slot(self@, key);
                lemma_slot_of_path(self@, self@.slot_of(key));
            }
        }
        true
    }

    /// Puts `parent` in front of the path of every variable. The state gets a
    /// new generation.
    pub fn prefix_paths(&mut self, parent: &SPPath)
        ensures
            final(self)@.wf(),
            final(self)@ == old(self)@.prefixed(parent@).with_id(final(self)@.id),
            final(self)@.id != old(self)@.id,
    {
        proof {
            use_type_invariant(&*self);
        }
        let ghost before = self@;
        let mut slots: Vec<Slot> = Vec::new();
        std::mem::swap(&mut self.slots, &mut slots);
        let mut i: usize = 0;
        while i < slots.len()
            invariant
                i <= slots.len(),
                slots.len() == before.paths.len(),
                slot_cells(slots@) == before.cells,
                forall|j: int|
                    0 <= j < i ==> (#[trigger] slot_paths(slots@)[j]) == parent@ + before.paths[j],
                forall|j: int|
                    i <= j < slots.len() ==> (#[trigger] slot_paths(slots@)[j]) == before.paths[j],
            decreases slots.len() - i,
        {
            let ghost earlier = slots@;
            slots[i].path.add_parent_path(parent);
            proof {
                assert(slot_cells(slots@) =~= slot_cells(earlier));
                assert forall|j: int| 0 <= j < slots.len() && j != i implies (#[trigger] slot_paths(
                    slots@,
                )[j]) == slot_paths(earlier)[j] by {}
                assert(slot_paths(earlier)[i as int] == before.paths[i as int]);
                assert(slot_paths(slots@)[i as int] == parent@ + before.paths[i as int]);
            }
            i += 1;
        }
        proof {
            let after = slot_paths(slots@);
            assert(after =~= before.prefixed(parent@).paths);
            assert forall|a: int, b: int|
                0 <= a < after.len() && 0 <= b < after.len() && a != b implies after[a]
                != after[b] by {
                if after[a] == after[b] {
                    lemma_prefix_injective(parent@, before.paths[a], before.paths[b]);
                }
            }
        }
        self.id = next_generation(self.id);
        self.slots = slots;
    }

    /// Whether a proposal of a next value through the handle would be
    /// accepted: the handle was resolved against the current layout and
    /// nothing is in flight in its cell.
    pub fn next_is_allowed(&self, state_path: &StatePath) -> (allowed: bool)
        ensures
            allowed == self@.accepts_next(state_path@),
    {
        if !self.check_state_path(state_path) {
            return false;
        }
        let cell = &self.slots[state_path.index].value;
        !cell.has_next() && !cell.has_delay()
    }

    /// Whether a request through the handle would be carried out. The state
    /// stays as it is.
    pub fn is_allowed(&self, state_path: &StatePath, request: &AssignStateValue) -> (allowed:
        bool)
        ensures
            allowed == self@.assigned(state_path@, request@) is Ok,
    {
        if !self.check_state_path(state_path) {
            return false;
        }
        self.slots[state_path.index].value.is_allowed(request)
    }

    /// Carries out a request on the cell that the handle leads to, or refuses
    /// it and leaves the state as it is. A handle that was not resolved
    /// against the current layout is refused: a write never falls back on the
    /// path.
    pub fn assign(&mut self, state_path: &StatePath, request: AssignStateValue) -> (outcome:
        SPResult<()>)
        ensures
            final(self)@.wf(),
            match old(self)@.assigned(state_path@, request@) {
                Ok(state) => outcome is Ok && final(self)@ == state,
                Err(reason) => outcome == Err::<(), SPError>(reason) && final(self)@ == old(
                    self,
                )@,
            },
    {
        proof {
            use_type_invariant(&*self);
        }
        if !self.check_state_path(state_path) {
            return Err(SPError::StaleHandle);
        }
        let mut slots: Vec<Slot> = Vec::new();
        std::mem::swap(&mut self.slots, &mut slots);
        let ghost earlier = slots@;
        let outcome = slots[state_path.index].value.assign(request);
        proof {
            assert(slot_paths(slots@) =~= slot_paths(earlier));
            assert(slot_cells(slots@) =~= slot_cells(earlier).update(
                state_path.index as int,
                slots@[state_path.index as int].value@,
            ));
            if outcome is Err {
                assert(slot_cells(slots@) =~= slot_cells(earlier));
            }
        }
        self.slots = slots;
        outcome
    }

    /// Proposes `value` as the next value of the variable that the handle
    /// leads to.
    pub fn next(&mut self, state_path: &StatePath, value: SPValue) -> (outcome: SPResult<()>)
        ensures
            final(self)@.wf(),
            match old(self)@.assigned(state_path@, AssignView::SPValue(value@)) {
                Ok(state) => outcome is Ok && final(self)@ == state,
                Err(reason) => outcome == Err::<(), SPError>(reason) && final(self)@ == old(
                    self,
                )@,
            },
    {
        self.assign(state_path, AssignStateValue::SPValue(value))
    }

    /// Proposes `value` as the next value of the variable of that path.
    pub fn next_from_path(&mut self, path: &SPPath, value: SPValue) -> (outcome: SPResult<()>)
        ensures
            final(self)@.wf(),
            match old(self)@.resolved(path@) {
                Some(handle) => match old(self)@.assigned(handle, AssignView::SPValue(value@)) {
                    Ok(state) => outcome is Ok && final(self)@ == state,
                    Err(reason) => outcome == Err::<(), SPError>(reason) && final(self)@ == old(
                        self,
                    )@,
                },
                None => outcome == Err::<(), SPError>(SPError::ResolutionError) && final(self)@
                    == old(self)@,
            },
    {
        match self.state_path(path) {
            Some(sp) => self.next(&sp, value),
            None => Err(SPError::ResolutionError),
        }
    }

    /// Sets the current value of the variable that the handle leads to at
    /// once, whatever is in flight.
    pub fn force(&mut self, state_path: &StatePath, value: SPValue) -> (outcome: SPResult<()>)
        ensures
            final(self)@.wf(),
            match old(self)@.assigned(state_path@, AssignView::Force(value@)) {
                Ok(state) => outcome is Ok && final(self)@ == state,
                Err(reason) => outcome == Err::<(), SPError>(reason) && final(self)@ == old(
                    self,
                )@,
            },
    {
        self.assign(state_path, AssignStateValue::Force(value))
    }

    /// Makes all the proposals or none. They are made if each of them would
    /// be accepted by the state as it is and no two of them are for one
    /// variable; then every cell named has the value proposed for it as its
    /// next value. Else the state stays as it is. Returns whether the
    /// proposals were made.
    pub fn next_map(&mut self, map: Vec<(StatePath, SPValue)>) -> (ok: bool)
        ensures
            final(self)@.wf(),
            ok == old(self)@.accepts_batch(batch_views(map@)),
            ok ==> old(self)@.is_with_batch(batch_views(map@), final(self)@),
            !ok ==> final(self)@ == old(self)@,
    {
        proof {
            use_type_invariant(&*self);
        }
        let ghost batch = batch_views(map@);
        let ghost before = self@;
        let mut i: usize = 0;
        while i < map.len()
            invariant
                i <= map.len(),
                batch == batch_views(map@),
                self@ == before,
                before == old(self)@,
                before.wf(),
                forall|j: int| 0 <= j < i ==> before.accepts_next((#[trigger] batch[j]).0),
                forall|a: int, b: int|
                    0 <= a < b < i ==> (#[trigger] batch[a]).0.index != (#[trigger] batch[b]).0.index,
            decreases map.len() - i,
        {
            if !self.next_is_allowed(&map[i].0) {
                assert(!before.accepts_next(batch[i as int].0));
                return false;
            }
            let mut j: usize = 0;
            while j < i
                invariant
                    j <= i < map.len(),
                    batch == batch_views(map@),
                    self@ == before,
                    before == old(self)@,
                    before.wf(),
                    forall|a: int|
                        0 <= a < j ==> (#[trigger] batch[a]).0.index != batch[i as int].0.index,
                decreases i - j,
            {
                if map[j].0.index == map[i].0.index {
                    assert(batch[j as int].0.index == batch[i as int].0.index);
                    return false;
                }
                j += 1;
            }
            i += 1;
        }
        assert(before.accepts_batch(batch));
        let mut slots: Vec<Slot> = Vec::new();
        std::mem::swap(&mut self.slots, &mut slots);
        for pair in iter: map
            invariant
                batch == batch_views(map@),
                before == old(self)@,
                before.wf(),
                before.accepts_batch(batch),
                slots.len() == before.cells.len(),
                slot_paths(slots@) == before.paths,
                forall|j: int|
                    0 <= j < iter.index() ==> slot_cells(slots@)[(#[trigger] batch[j]).0.index] == (
                    CellView { next: Some(batch[j].1), ..before.cells[batch[j].0.index] }),
                forall|slot: int|
                    0 <= slot < before.cells.len() && (forall|j: int|
                        0 <= j < iter.index() ==> (#[trigger] batch[j]).0.index != slot)
                        ==> #[trigger] slot_cells(slots@)[slot] == before.cells[slot],
                self.slots@.len() == 0,
                self.id == before.id,
                is_random_uuid(self.id),
        {
            let ghost k = iter.index() as int;
            let ghost earlier = slots@;
            let ghost handle = pair.0@;
            let ghost value = pair.1@;
            proof {
                assert(batch[k] == (handle, value));
                assert(before.accepts_next(batch[k].0));
                assert forall|j: int| 0 <= j < k implies (#[trigger] batch[j]).0.index
                    != handle.index by {
                    assert(batch[j].0.index != batch[k].0.index);
                }
                assert(slot_cells(earlier)[handle.index] == before.cells[handle.index]);
            }
            let accepted = slots[pair.0.index].value.next(pair.1);
            proof {
                assert(accepted);
                let next = CellView { next: Some(value), ..before.cells[handle.index] };
                assert(slot_paths(slots@) =~= slot_paths(earlier));
                assert(slot_cells(slots@) =~= slot_cells(earlier).update(handle.index, next));
                assert forall|j: int| 0 <= j < k + 1 implies slot_cells(slots@)[(
                #[trigger] batch[j]).0.index] == (CellView {
                    next: Some(batch[j].1),
                    ..before.cells[batch[j].0.index]
                }) by {
                    if j < k {
                        assert(batch[j].0.index != batch[k].0.index);
                        assert(before.accepts_next(batch[j].0));
                    }
                }
                assert forall|slot: int|
                    0 <= slot < before.cells.len() && (forall|j: int|
                        0 <= j < k + 1 ==> (#[trigger] batch[j]).0.index
                            != slot) implies #[trigger] slot_cells(slots@)[slot]
                    == before.cells[slot] by {
                    assert(batch[k].0.index != slot);
                    assert forall|j: int| 0 <= j < k implies (#[trigger] batch[j]).0.index
                        != slot by {}
                    assert(slot_cells(earlier)[slot] == before.cells[slot]);
                }
            }
        }
        self.slots = slots;
        true
    }

    /// Commits every cell: each proposed next value becomes the current one.
    pub fn take_transition(&mut self)
        ensures
            final(self)@.wf(),
            final(self)@ == old(self)@.committed(),
    {
        proof {
            use_type_invariant(&*self);
        }
        let ghost before = self@;
        let mut slots: Vec<Slot> = Vec::new();
        std::mem::swap(&mut self.slots, &mut slots);
        let mut i: usize = 0;
        while i < slots.len()
            invariant
                i <= slots.len(),
                slots.len() == before.cells.len(),
                slot_paths(slots@) == before.paths,
                forall|j: int|
                    0 <= j < i ==> (#[trigger] slot_cells(slots@)[j]) == before.cells[j].committed(),
                forall|j: int|
                    i <= j < slots.len() ==> (#[trigger] slot_cells(slots@)[j]) == before.cells[j],
            decreases slots.len() - i,
        {
            let ghost earlier = slots@;
            slots[i].value.take();
            proof {
                assert(slot_paths(slots@) =~= slot_paths(earlier));
                assert forall|j: int| 0 <= j < slots.len() && j != i implies (#[trigger] slot_cells(
                    slots@,
                )[j]) == slot_cells(earlier)[j] by {}
                assert(slot_cells(earlier)[i as int] == before.cells[i as int]);
                assert(slot_cells(slots@)[i as int] == before.cells[i as int].committed());
            }
            i += 1;
        }
        assert(slot_cells(slots@) =~= before.committed().cells);
        self.slots = slots;
    }

    /// Turns the state into its variables: each path with its cell, in the
    /// order of the slots.
    pub fn extract(self) -> (pairs: Vec<(SPPath, StateValue)>)
        ensures
            self@.wf(),
            pair_views(pairs@) == self@.entries(),
    {
        proof {
            use_type_invariant(&self);
        }
        let ghost state = self@;
        let mut pairs: Vec<(SPPath, StateValue)> = Vec::new();
        for slot in iter: self.slots
            invariant
                state == view_of(iter.seq(), state.id),
                pairs.len() == iter.index(),
                forall|j: int| 0 <= j < pairs.len() ==> pair_views(pairs@)[j] == state.entries()[j],
        {
            assert(state.paths[iter.index() as int] == slot.path@);
            assert(state.cells[iter.index() as int] == slot.value@);
            pairs.push((slot.path, slot.value));
        }
        assert(pair_views(pairs@) =~= state.entries());
        pairs
    }

    /// Takes over the variables of `other_state`, one after the other in the
    /// order of its slots: a path that this state has gets the cell it has
    /// there, a new path gets a slot at the end. The state gets a new
    /// generation if a path among them is new to it.
    pub fn extend(&mut self, other_state: SPState)
        ensures
            final(self)@.wf(),
            final(self)@ == old(self)@.put_all(other_state@.entries()).with_id(final(self)@.id),
            (final(self)@.id == old(self)@.id) == (final(self)@.paths == old(self)@.paths),
    {
        let p = other_state.extract();
        self.add_state_variables(p);
    }
}

impl Clone for SPState {
    fn clone(&self) -> (copy: Self)
        ensures
            copy@ == self@,
    {
        proof {
            use_type_invariant(self);
        }
        let mut slots: Vec<Slot> = Vec::new();
        let mut i: usize = 0;
        while i < self.slots.len()
            invariant
                i <= self.slots.len(),
                slots.len() == i,
                forall|j: int| 0 <= j < i ==> slot_paths(slots@)[j] == self@.paths[j],
                forall|j: int| 0 <= j < i ==> slot_cells(slots@)[j] == self@.cells[j],
            decreases self.slots.len() - i,
        {
            let slot = &self.slots[i];
            slots.push(Slot { path: slot.path.clone(), value: slot.value.clone() });
            i += 1;
        }
        proof {
            assert(slot_paths(slots@) =~= self@.paths);
            assert(slot_cells(slots@) =~= self@.cells);
        }
        SPState { slots, id: self.id }
    }
}

impl Default for SPState {
    fn default() -> (state: Self)
        ensures
            state@ == StateView::empty(state@.id),
    {
        SPState::new()
    }
}

impl PartialEq for SPState {
    fn eq(&self, other: &Self) -> (same: bool) {
        let mine = self.projection();
        let theirs = other.projection();
        proof {
            lemma_same_content_same_listing(mine@, self@.content(), theirs@, other@.content());
        }
        mine == theirs
    }
}

impl PartialEqSpecImpl for SPState {
    open spec fn obeys_eq_spec() -> bool {
        true
    }

    /// Two states are equal if they have the same variables with the same
    /// cells, whatever the slots and the generations.
    open spec fn eq_spec(&self, other: &Self) -> bool {
        self@.content() == other@.content()
    }
}

impl<'a> StateProjection<'a> {
    /// A state of its own with copies of the listed variables, added in the
    /// order of the listing.
    pub fn clone_state(&self) -> (state: SPState)
        ensures
            state@.wf(),
            state@ == StateView::empty(state@.id).put_all(self@),
    {
        SPState::new_from_state_values(self.clone_vec().as_slice())
    }
}

} // verus!
