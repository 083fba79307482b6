//! The mathematical model of a state and of the handles into it, and what
//! holds of every state.

use crate::paths::{is_descendant, PathView};
use crate::sperror::SPError;
use crate::state_value::{AssignView, CellView};
use crate::values::ValueView;
use vstd::prelude::*;

verus! {

/// A path with the cell of its variable.
pub type Entry = (PathView, CellView);

/// What a `StatePath` stands for: the path that was resolved, the slot it had
/// and the generation that the state had.
pub ghost struct HandleView {
    pub path: PathView,
    pub index: int,
    pub state_id: u128,
}

/// What an `SPState` stands for: the paths of its variables in the order of
/// their slots, the cell in each slot, and the generation of this layout.
pub ghost struct StateView {
    pub paths: Seq<PathView>,
    pub cells: Seq<CellView>,
    pub id: u128,
}

impl StateView {
    /// The state without variables.
    pub open spec fn empty(id: u128) -> StateView {
        StateView { paths: Seq::empty(), cells: Seq::empty(), id }
    }

    /// Every slot has a path and a cell, and no path has two slots.
    pub open spec fn wf(self) -> bool {
        &&& self.paths.len() == self.cells.len()
        &&& self.paths.no_duplicates()
    }

    /// Whether the state has a variable of that path.
    pub open spec fn contains(self, path: PathView) -> bool {
        self.paths.contains(path)
    }

    /// The slot of the variable of that path.
    pub open spec fn slot_of(self, path: PathView) -> int
        recommends
            self.contains(path),
    {
        self.paths.index_of(path)
    }

    /// The variables of the state with their cells, whatever their slots and
    /// the generation: what the state says.
    pub open spec fn content(self) -> Map<PathView, CellView> {
        Map::new(
            |path: PathView| self.contains(path),
            |path: PathView| self.cells[self.slot_of(path)],
        )
    }

    /// The part of `content` below `parent`: the variables whose paths lie
    /// strictly below it.
    pub open spec fn sub_content(self, parent: PathView) -> Map<PathView, CellView> {
        Map::new(
            |path: PathView| self.contains(path) && is_descendant(path, parent),
            |path: PathView| self.cells[self.slot_of(path)],
        )
    }

    /// The handle that resolving `path` gives.
    pub open spec fn resolved(self, path: PathView) -> Option<HandleView> {
        if self.contains(path) {
            Some(HandleView { path, index: self.slot_of(path), state_id: self.id })
        } else {
            None
        }
    }

    /// Whether the handle was resolved against this layout.
    pub open spec fn accepts(self, handle: HandleView) -> bool {
        handle.state_id == self.id && 0 <= handle.index < self.cells.len()
    }

    /// The cell of the variable of that path.
    pub open spec fn read_path(self, path: PathView) -> Option<CellView> {
        if self.content().contains_key(path) {
            Some(self.content()[path])
        } else {
            None
        }
    }

    /// The cell that a read through the handle gives: the cell of its slot if
    /// the handle is accepted, else the cell of its path if the state still
    /// has that path.
    pub open spec fn read(self, handle: HandleView) -> Option<CellView> {
        if self.accepts(handle) {
            Some(self.cells[handle.index])
        } else {
            self.read_path(handle.path)
        }
    }

    /// The state with another cell in one slot.
    pub open spec fn with_cell(self, slot: int, cell: CellView) -> StateView {
        StateView { cells: self.cells.update(slot, cell), ..self }
    }

    /// The state with another generation.
    pub open spec fn with_id(self, id: u128) -> StateView {
        StateView { id, ..self }
    }

    /// The state after `path` was given `cell`, generation aside: a path that
    /// the state has keeps its slot, a new path gets a slot at the end.
    pub open spec fn put(self, path: PathView, cell: CellView) -> StateView {
        if self.contains(path) {
            self.with_cell(self.slot_of(path), cell)
        } else {
            StateView { paths: self.paths.push(path), cells: self.cells.push(cell), ..self }
        }
    }

    /// The state after each of `entries` was put into it, the first one first.
    pub open spec fn put_all(self, entries: Seq<Entry>) -> StateView
        decreases entries.len(),
    {
        if entries.len() == 0 {
            self
        } else {
            self.put_all(entries.drop_last()).put(entries.last().0, entries.last().1)
        }
    }

    /// The outcome of a request made through a handle: the state as it is
    /// afterwards, or the reason for which the request is refused. A handle
    /// that the state does not accept is refused whatever the request.
    pub open spec fn assigned(self, handle: HandleView, request: AssignView) -> Result<
        StateView,
        SPError,
    > {
        if !self.accepts(handle) {
            Err(SPError::StaleHandle)
        } else {
            match self.cells[handle.index].assigned(request) {
                Ok(cell) => Ok(self.with_cell(handle.index, cell)),
                Err(reason) => Err(reason),
            }
        }
    }

    /// Whether a proposal of a next value through the handle would be
    /// accepted.
    pub open spec fn accepts_next(self, handle: HandleView) -> bool {
        self.accepts(handle) && self.cells[handle.index].is_clean()
    }

    /// Whether a batch of proposals of next values can be made as a whole:
    /// each of them would be accepted by the state as it is, and no two of
    /// them are for one slot.
    pub open spec fn accepts_batch(self, batch: Seq<(HandleView, ValueView)>) -> bool {
        &&& forall|i: int| 0 <= i < batch.len() ==> self.accepts_next((#[trigger] batch[i]).0)
        &&& forall|i: int, j: int|
            0 <= i < j < batch.len() ==> (#[trigger] batch[i]).0.index != (#[trigger] batch[j]).0.index
    }

    /// Whether `after` is this state with every proposal of `batch` made: the
    /// cell of each proposal has the proposed value as its next value and is
    /// otherwise as it was, and all other cells, the paths and the generation
    /// are as they were.
    pub open spec fn is_with_batch(
        self,
        batch: Seq<(HandleView, ValueView)>,
        after: StateView,
    ) -> bool {
        &&& after.paths == self.paths
        &&& after.id == self.id
        &&& after.cells.len() == self.cells.len()
        &&& forall|i: int|
            0 <= i < batch.len() ==> after.cells[(#[trigger] batch[i]).0.index] == (CellView {
                next: Some(batch[i].1),
                ..self.cells[batch[i].0.index]
            })
        &&& forall|slot: int|
            0 <= slot < self.cells.len() && (forall|i: int|
                0 <= i < batch.len() ==> (#[trigger] batch[i]).0.index != slot)
                ==> #[trigger] after.cells[slot] == self.cells[slot]
    }

    /// The state after a commit of every cell.
    pub open spec fn committed(self) -> StateView {
        StateView { cells: self.cells.map_values(|cell: CellView| cell.committed()), ..self }
    }

    /// The state after `parent` was put in front of every path, generation
    /// aside.
    pub open spec fn prefixed(self, parent: PathView) -> StateView {
        StateView { paths: self.paths.map_values(|path: PathView| parent + path), ..self }
    }

    /// Whether every variable of this state below `parent` is a variable of
    /// `other` too, with the same current value.
    pub open spec fn agrees_below(self, other: StateView, parent: PathView) -> bool {
        forall|path: PathView|
            #![trigger self.contains(path)]
            self.contains(path) && is_descendant(path, parent) ==> other.contains(path)
                && other.content()[path].current == self.content()[path].current
    }

    /// The entries of the state in the order of their slots.
    pub open spec fn entries(self) -> Seq<Entry> {
        Seq::new(self.paths.len(), |i: int| (self.paths[i], self.cells[i]))
    }
}

/// In a well-formed state the path of a slot leads back to that slot.
pub proof fn lemma_slot_of_path(state: StateView, slot: int)
    requires
        state.wf(),
        0 <= slot < state.paths.len(),
    ensures
        state.contains(state.paths[slot]),
        state.slot_of(state.paths[slot]) == slot,
        state.content().contains_key(state.paths[slot]),
        state.content()[state.paths[slot]] == state.cells[slot],
{
    assert(state.paths[slot] == state.paths[slot]);
}

/// The slot of a path that the state has holds that path.
pub proof fn lemma_path_of_slot(state: StateView, path: PathView)
    requires
        state.contains(path),
    ensures
        0 <= state.slot_of(path) < state.paths.len(),
        state.paths[state.slot_of(path)] == path,
{
}

/// Putting a path keeps the state well formed, gives the path its cell and
/// leaves the cells of all other paths as they were. The sequence of paths
/// stays the same exactly when the state had the path.
pub proof fn lemma_put(state: StateView, path: PathView, cell: CellView)
    requires
        state.wf(),
    ensures
        state.put(path, cell).wf(),
        state.put(path, cell).content() == state.content().insert(path, cell),
        (state.put(path, cell).paths == state.paths) == state.contains(path),
        state.put(path, cell).paths.len() >= state.paths.len(),
{
    let after = state.put(path, cell);
    if state.contains(path) {
        lemma_path_of_slot(state, path);
    } else {
        assert(after.paths.len() == state.paths.len() + 1);
        assert(after.paths[state.paths.len() as int] == path);
    }
    assert forall|k: PathView| after.contains(k) == (state.contains(k) || k == path) by {
        if after.contains(k) {
            let i = choose|i: int| 0 <= i < after.paths.len() && after.paths[i] == k;
            if i < state.paths.len() {
                assert(state.paths[i] == k);
            }
        }
        if state.contains(k) {
            let i = choose|i: int| 0 <= i < state.paths.len() && state.paths[i] == k;
            assert(after.paths[i] == k);
        }
        if k == path {
            if state.contains(path) {
            } else {
                assert(after.paths[state.paths.len() as int] == k);
            }
        }
    }
    assert forall|k: PathView| after.contains(k) implies after.content()[k] == state.content().insert(
        path,
        cell,
    )[k] by {
        lemma_path_of_slot(after, k);
        let i = after.slot_of(k);
        lemma_slot_of_path(after, i);
        if state.contains(path) {
            lemma_slot_of_path(state, i);
            lemma_path_of_slot(state, path);
            lemma_slot_of_path(state, state.slot_of(path));
        } else {
            if i < state.paths.len() {
                lemma_slot_of_path(state, i);
            }
        }
    }
    assert(after.content() =~= state.content().insert(path, cell));
}

/// Putting entries keeps the state well formed and only ever adds paths.
pub proof fn lemma_put_all(state: StateView, entries: Seq<Entry>)
    requires
        state.wf(),
    ensures
        state.put_all(entries).wf(),
        state.put_all(entries).id == state.id,
        state.put_all(entries).paths.len() >= state.paths.len(),
        state.paths.is_prefix_of(state.put_all(entries).paths),
    decreases entries.len(),
{
    if entries.len() > 0 {
        lemma_put_all(state, entries.drop_last());
        lemma_put(state.put_all(entries.drop_last()), entries.last().0, entries.last().1);
    }
}

/// A batch of proposals that is made leaves one state only, and in it no
/// proposal is lost: a read through the handle of each proposal gives a cell
/// whose next value is the proposed one and whose current value is as it was.
pub proof fn lemma_batch_is_made_in_full(
    state: StateView,
    batch: Seq<(HandleView, ValueView)>,
    after: StateView,
    other: StateView,
    i: int,
)
    requires
        state.wf(),
        state.accepts_batch(batch),
        state.is_with_batch(batch, after),
        state.is_with_batch(batch, other),
        0 <= i < batch.len(),
    ensures
        after == other,
        after.wf(),
        after.read(batch[i].0) matches Some(cell) && cell.next == Some(batch[i].1) && cell.current
            == state.cells[batch[i].0.index].current,
        !after.accepts_next(batch[i].0),
{
    assert forall|slot: int| 0 <= slot < state.cells.len() implies after.cells[slot]
        == other.cells[slot] by {
        if exists|k: int| 0 <= k < batch.len() && (#[trigger] batch[k]).0.index == slot {
            let k = choose|k: int| 0 <= k < batch.len() && (#[trigger] batch[k]).0.index == slot;
            assert(after.cells[batch[k].0.index] == other.cells[batch[k].0.index]);
        }
    }
    assert(after.cells =~= other.cells);
    assert(state.accepts_next(batch[i].0));
}

/// Putting entries takes no notice of the generation.
pub proof fn lemma_put_all_with_id(state: StateView, entries: Seq<Entry>, id: u128)
    ensures
        state.with_id(id).put_all(entries) == state.put_all(entries).with_id(id),
    decreases entries.len(),
{
    if entries.len() > 0 {
        lemma_put_all_with_id(state, entries.drop_last(), id);
    }
}

/// After entries were put, the state has a path exactly if it had it before
/// or an entry names it; the path of an entry has the cell of the last entry
/// that names it, and every other path the cell it had.
pub proof fn lemma_put_all_content(state: StateView, entries: Seq<Entry>, path: PathView)
    requires
        state.wf(),
    ensures
        state.put_all(entries).contains(path) == (state.contains(path) || exists|i: int|
            0 <= i < entries.len() && (#[trigger] entries[i]).0 == path),
        forall|i: int|
            (0 <= i < entries.len() && (#[trigger] entries[i]).0 == path && forall|j: int|
                i < j < entries.len() ==> (#[trigger] entries[j]).0 != path) ==> state.put_all(
                entries,
            ).content()[path] == entries[i].1,
        (forall|i: int| 0 <= i < entries.len() ==> (#[trigger] entries[i]).0 != path)
            ==> state.put_all(entries).content()[path] == state.content()[path],
    decreases entries.len(),
{
    let after = state.put_all(entries);
    if entries.len() > 0 {
        let front = entries.drop_last();
        let last = entries.last();
        let before = state.put_all(front);
        lemma_put_all_content(state, front, path);
        lemma_put_all(state, front);
        lemma_put(before, last.0, last.1);
        assert(after.content() == before.content().insert(last.0, last.1));
        assert(after.contains(path) == after.content().contains_key(path));
        assert(before.contains(path) == before.content().contains_key(path));
        if exists|i: int| 0 <= i < front.len() && (#[trigger] front[i]).0 == path {
            let i = choose|i: int| 0 <= i < front.len() && (#[trigger] front[i]).0 == path;
            assert(entries[i].0 == path);
        }
        if exists|i: int| 0 <= i < entries.len() && (#[trigger] entries[i]).0 == path {
            let i = choose|i: int| 0 <= i < entries.len() && (#[trigger] entries[i]).0 == path;
            if i < front.len() {
                assert(front[i].0 == path);
            }
        }
        assert forall|i: int|
            (0 <= i < entries.len() && (#[trigger] entries[i]).0 == path && forall|j: int|
                i < j < entries.len() ==> (#[trigger] entries[j]).0 != path) implies after.content()[path]
            == entries[i].1 by {
            if i < front.len() {
                assert(last == entries[entries.len() - 1]);
                assert(front[i].0 == path);
                assert forall|j: int| i < j < front.len() implies (#[trigger] front[j]).0
                    != path by {
                    assert(entries[j].0 != path);
                }
            }
        }
        if forall|i: int| 0 <= i < entries.len() ==> (#[trigger] entries[i]).0 != path {
            assert(last == entries[entries.len() - 1]);
            assert forall|i: int| 0 <= i < front.len() implies (#[trigger] front[i]).0 != path by {
                assert(entries[i].0 == front[i].0);
            }
        }
    }
}

/// A variable that was added is found again: its path resolves to a handle,
/// and a read through the handle, like a read by the path, gives the cell
/// that was added. The other variables read as before.
pub proof fn lemma_added_variable_is_read(
    state: StateView,
    path: PathView,
    cell: CellView,
    id: u128,
    other: PathView,
)
    requires
        state.wf(),
    ensures
        ({
            let after = state.put(path, cell).with_id(id);
            &&& after.wf()
            &&& after.resolved(path) is Some
            &&& after.read(after.resolved(path)->0) == Some(cell)
            &&& after.read_path(path) == Some(cell)
            &&& other != path ==> after.read_path(other) == state.read_path(other)
        }),
{
    let after = state.put(path, cell).with_id(id);
    lemma_put(state, path, cell);
    assert(after.content() == state.put(path, cell).content());
    assert(after.content().contains_key(path));
    assert(after.content()[path] == cell);
    lemma_path_of_slot(after, path);
    if other != path {
        assert(after.content().contains_key(other) == state.content().contains_key(other));
        if state.contains(other) {
            assert(after.content()[other] == state.content()[other]);
        }
    }
}

/// A handle through which a proposal of a next value is accepted refuses a
/// second proposal with `OverwritePendingNext`, and accepts one again after
/// the commit.
pub proof fn lemma_second_proposal_is_refused(
    state: StateView,
    handle: HandleView,
    first: ValueView,
    second: ValueView,
)
    requires
        state.wf(),
        state.accepts_next(handle),
    ensures
        state.assigned(handle, AssignView::SPValue(first)) is Ok,
        state.assigned(handle, AssignView::SPValue(first))->Ok_0.assigned(
            handle,
            AssignView::SPValue(second),
        ) == Err::<StateView, SPError>(SPError::OverwritePendingNext),
        state.assigned(handle, AssignView::SPValue(first))->Ok_0.committed().accepts_next(handle),
        state.assigned(handle, AssignView::SPValue(first))->Ok_0.committed().cells[handle.index].current
            == first,
{
}

/// A commit changes neither the paths nor the generation, and commits the
/// cell in every slot: a proposed next value becomes the current one, the
/// old current value the previous one, and nothing stays proposed; a cell
/// in which nothing is in flight stays as it is.
pub proof fn lemma_commit(state: StateView, slot: int)
    requires
        0 <= slot < state.cells.len(),
    ensures
        state.committed().paths == state.paths,
        state.committed().id == state.id,
        state.committed().cells.len() == state.cells.len(),
        state.committed().cells[slot] == state.cells[slot].committed(),
        match state.cells[slot].next {
            Some(v) => {
                &&& state.committed().cells[slot].current == v
                &&& state.committed().cells[slot].prev == Some(state.cells[slot].current)
                &&& state.committed().cells[slot].next is None
            },
            None => state.cells[slot].delay is None ==> state.committed().cells[slot]
                == state.cells[slot],
        },
{
}

/// Requests and commits change cells only: the paths, their slots and the
/// generation stay, so that handles stay valid.
pub proof fn lemma_values_do_not_touch_the_layout(
    state: StateView,
    handle: HandleView,
    request: AssignView,
    other: HandleView,
)
    requires
        state.wf(),
    ensures
        state.assigned(handle, request) matches Ok(after) ==> {
            &&& after.wf()
            &&& after.paths == state.paths
            &&& after.id == state.id
            &&& after.accepts(other) == state.accepts(other)
            &&& forall|slot: int|
                0 <= slot < state.cells.len() && slot != handle.index ==> after.cells[slot]
                    == state.cells[slot]
        },
        state.committed().wf(),
        state.committed().accepts(other) == state.accepts(other),
{
}

/// After a new path was added, a handle that was resolved before is refused
/// by every request, while a read through it still gives the cell of its
/// path.
pub proof fn lemma_stale_handle_reads_but_does_not_write(
    state: StateView,
    path: PathView,
    new_path: PathView,
    cell: CellView,
    id: u128,
    request: AssignView,
)
    requires
        state.wf(),
        state.contains(path),
        !state.contains(new_path),
        id != state.id,
    ensures
        ({
            let handle = state.resolved(path)->0;
            let after = state.put(new_path, cell).with_id(id);
            &&& state.accepts(handle)
            &&& after.assigned(handle, request) == Err::<StateView, SPError>(SPError::StaleHandle)
            &&& after.read(handle) == state.read(handle)
            &&& after.read(handle) == Some(state.content()[path])
        }),
{
    let handle = state.resolved(path)->0;
    let after = state.put(new_path, cell).with_id(id);
    lemma_path_of_slot(state, path);
    lemma_added_variable_is_read(state, new_path, cell, id, path);
    assert(state.read(handle) == Some(state.cells[state.slot_of(path)]));
    assert(!after.accepts(handle));
    assert(after.read(handle) == after.read_path(path));
}

/// Whether no path is paired with two different cells.
pub open spec fn one_cell_per_path(entries: Seq<Entry>) -> bool {
    forall|i: int, j: int|
        0 <= i < entries.len() && 0 <= j < entries.len() && (#[trigger] entries[i]).0
            == (#[trigger] entries[j]).0 ==> entries[i].1 == entries[j].1
}

/// The content of a state built from entries does not depend on their
/// order: two sequences of the same entries, in which no path is paired with
/// two different cells, give states that say the same.
pub proof fn lemma_order_of_entries_is_irrelevant(
    first: Seq<Entry>,
    second: Seq<Entry>,
    first_id: u128,
    second_id: u128,
)
    requires
        first.to_set() == second.to_set(),
        one_cell_per_path(first),
    ensures
        StateView::empty(first_id).put_all(first).content() == StateView::empty(
            second_id,
        ).put_all(second).content(),
{
    let a = StateView::empty(first_id).put_all(first);
    let b = StateView::empty(second_id).put_all(second);
    assert forall|i: int| 0 <= i < first.len() implies second.contains(#[trigger] first[i]) by {
        assert(first.contains(first[i]));
        assert(first.to_set().contains(first[i]));
    }
    assert forall|i: int| 0 <= i < second.len() implies first.contains(#[trigger] second[i]) by {
        assert(second.contains(second[i]));
        assert(second.to_set().contains(second[i]));
    }
    assert forall|path: PathView| a.content().contains_key(path) == b.content().contains_key(
        path,
    ) by {
        lemma_put_all_content(StateView::empty(first_id), first, path);
        lemma_put_all_content(StateView::empty(second_id), second, path);
        if exists|i: int| 0 <= i < first.len() && (#[trigger] first[i]).0 == path {
            let i = choose|i: int| 0 <= i < first.len() && (#[trigger] first[i]).0 == path;
            let j = choose|j: int| 0 <= j < second.len() && second[j] == first[i];
            assert(second[j].0 == path);
        }
        if exists|j: int| 0 <= j < second.len() && (#[trigger] second[j]).0 == path {
            let j = choose|j: int| 0 <= j < second.len() && (#[trigger] second[j]).0 == path;
            let i = choose|i: int| 0 <= i < first.len() && first[i] == second[j];
            assert(first[i].0 == path);
        }
    }
    assert forall|path: PathView| a.content().contains_key(path) implies a.content()[path]
        == b.content()[path] by {
        lemma_put_all_content(StateView::empty(first_id), first, path);
        lemma_put_all_content(StateView::empty(second_id), second, path);
        let i = last_entry_of(first, path);
        let j = last_entry_of(second, path);
        lemma_last_entry_of(first, path);
        assert(b.content().contains_key(path));
        lemma_last_entry_of(second, path);
        let k = choose|k: int| 0 <= k < first.len() && first[k] == second[j];
        assert(first[k].0 == first[i].0);
    }
    assert(a.content() =~= b.content());
}

/// The entries of pairs of a path and a value, each value in a cell without
/// history.
pub open spec fn fresh_entries(pairs: Seq<(PathView, ValueView)>) -> Seq<Entry> {
    pairs.map_values(|pair: (PathView, ValueView)| (pair.0, CellView::fresh(pair.1)))
}

/// Whether no path is paired with two different values.
pub open spec fn one_value_per_path(pairs: Seq<(PathView, ValueView)>) -> bool {
    forall|i: int, j: int|
        0 <= i < pairs.len() && 0 <= j < pairs.len() && (#[trigger] pairs[i]).0
            == (#[trigger] pairs[j]).0 ==> pairs[i].1 == pairs[j].1
}

/// The content of a state built from pairs of a path and a value does not
/// depend on their order: two sequences of the same pairs, in which no path
/// is paired with two different values, give states that say the same.
pub proof fn lemma_order_of_values_is_irrelevant(
    first: Seq<(PathView, ValueView)>,
    second: Seq<(PathView, ValueView)>,
    first_id: u128,
    second_id: u128,
)
    requires
        first.to_set() == second.to_set(),
        one_value_per_path(first),
    ensures
        StateView::empty(first_id).put_all(fresh_entries(first)).content() == StateView::empty(
            second_id,
        ).put_all(fresh_entries(second)).content(),
{
    let a = fresh_entries(first);
    let b = fresh_entries(second);
    assert forall|entry: Entry| a.to_set().contains(entry) == b.to_set().contains(entry) by {
        if a.contains(entry) {
            let i = choose|i: int| 0 <= i < a.len() && a[i] == entry;
            assert(first.contains(first[i]));
            assert(first.to_set().contains(first[i]));
            assert(second.contains(first[i]));
            let j = choose|j: int| 0 <= j < second.len() && second[j] == first[i];
            assert(b[j] == entry);
        }
        if b.contains(entry) {
            let j = choose|j: int| 0 <= j < b.len() && b[j] == entry;
            assert(second.contains(second[j]));
            assert(second.to_set().contains(second[j]));
            assert(first.contains(second[j]));
            let i = choose|i: int| 0 <= i < first.len() && first[i] == second[j];
            assert(a[i] == entry);
        }
    }
    assert(a.to_set() =~= b.to_set());
    assert forall|i: int, j: int|
        0 <= i < a.len() && 0 <= j < a.len() && (#[trigger] a[i]).0 == (#[trigger] a[j]).0 implies a[i].1
        == a[j].1 by {
        assert(first[i].0 == first[j].0);
    }
    lemma_order_of_entries_is_irrelevant(a, b, first_id, second_id);
}

/// The position of the last entry that names `path`.
pub open spec fn last_entry_of(entries: Seq<Entry>, path: PathView) -> int
    decreases entries.len(),
{
    if entries.len() == 0 {
        -1
    } else if entries.last().0 == path {
        entries.len() - 1
    } else {
        last_entry_of(entries.drop_last(), path)
    }
}

/// `last_entry_of` gives the last entry that names the path, if one does.
proof fn lemma_last_entry_of(entries: Seq<Entry>, path: PathView)
    requires
        exists|i: int| 0 <= i < entries.len() && (#[trigger] entries[i]).0 == path,
    ensures
        0 <= last_entry_of(entries, path) < entries.len(),
        entries[last_entry_of(entries, path)].0 == path,
        forall|j: int|
            last_entry_of(entries, path) < j < entries.len() ==> (#[trigger] entries[j]).0 != path,
    decreases entries.len(),
{
    let i = choose|i: int| 0 <= i < entries.len() && (#[trigger] entries[i]).0 == path;
    if entries.last().0 != path {
        let front = entries.drop_last();
        assert(front[i].0 == path);
        lemma_last_entry_of(front, path);
        assert forall|j: int| last_entry_of(entries, path) < j < entries.len() implies (
        #[trigger] entries[j]).0 != path by {
            if j < front.len() {
                assert(front[j].0 != path);
            }
        }
    }
}

} // verus!
