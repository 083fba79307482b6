//! The cell that holds one variable of a state, and the rules by which its
//! value changes.

use crate::sperror::{SPError, SPResult};
use crate::values::{SPValue, ValueView};
use vstd::prelude::*;
use vstd::std_specs::cmp::PartialEqSpecImpl;

verus! {

/// A change that takes effect only when the owner of a timer completes it.
#[derive(Debug)]
pub struct Delay {
    /// The value that the variable gets when the delay is completed.
    pub next_value: SPValue,
    /// How long to wait, in milliseconds.
    pub millis: u64,
    /// Whether a timer has been started for this delay.
    pub has_been_spawned: bool,
}

/// What a `Delay` stands for.
pub ghost struct DelayView {
    pub next_value: ValueView,
    pub millis: u64,
    pub has_been_spawned: bool,
}

impl View for Delay {
    type V = DelayView;

    open spec fn view(&self) -> DelayView {
        DelayView {
            next_value: self.next_value@,
            millis: self.millis,
            has_been_spawned: self.has_been_spawned,
        }
    }
}

impl Clone for Delay {
    fn clone(&self) -> (copy: Self)
        ensures
            copy@ == self@,
    {
        Delay {
            next_value: self.next_value.clone(),
            millis: self.millis,
            has_been_spawned: self.has_been_spawned,
        }
    }
}

impl PartialEq for Delay {
    fn eq(&self, other: &Self) -> (same: bool) {
        self.next_value == other.next_value && self.millis == other.millis
            && self.has_been_spawned == other.has_been_spawned
    }
}

impl PartialEqSpecImpl for Delay {
    open spec fn obeys_eq_spec() -> bool {
        true
    }

    open spec fn eq_spec(&self, other: &Self) -> bool {
        self@ == other@
    }
}

/// A request to change the value of a variable.
#[derive(Debug)]
pub enum AssignStateValue {
    /// Propose the value as the next one; it becomes current at the next commit.
    SPValue(SPValue),
    /// Propose the value as the next one after so many milliseconds.
    Delay(SPValue, u64),
    /// Give up the delayed change.
    CancelDelay,
    /// Turn the delayed change into the proposed next value.
    CompleteDelay,
    /// Set the current value at once, whatever is in flight.
    Force(SPValue),
}

/// What an `AssignStateValue` stands for.
pub ghost enum AssignView {
    SPValue(ValueView),
    Delay(ValueView, u64),
    CancelDelay,
    CompleteDelay,
    Force(ValueView),
}

impl View for AssignStateValue {
    type V = AssignView;

    open spec fn view(&self) -> AssignView {
        match self {
            AssignStateValue::SPValue(v) => AssignView::SPValue(v@),
            AssignStateValue::Delay(v, millis) => AssignView::Delay(v@, *millis),
            AssignStateValue::CancelDelay => AssignView::CancelDelay,
            AssignStateValue::CompleteDelay => AssignView::CompleteDelay,
            AssignStateValue::Force(v) => AssignView::Force(v@),
        }
    }
}

impl Clone for AssignStateValue {
    fn clone(&self) -> (copy: Self)
        ensures
            copy@ == self@,
    {
        match self {
            AssignStateValue::SPValue(v) => AssignStateValue::SPValue(v.clone()),
            AssignStateValue::Delay(v, millis) => AssignStateValue::Delay(v.clone(), *millis),
            AssignStateValue::CancelDelay => AssignStateValue::CancelDelay,
            AssignStateValue::CompleteDelay => AssignStateValue::CompleteDelay,
            AssignStateValue::Force(v) => AssignStateValue::Force(v.clone()),
        }
    }
}

impl PartialEq for AssignStateValue {
    fn eq(&self, other: &Self) -> (same: bool) {
        match (self, other) {
            (AssignStateValue::SPValue(a), AssignStateValue::SPValue(b)) => *a == *b,
            (AssignStateValue::Delay(a, m), AssignStateValue::Delay(b, n)) => *a == *b && *m == *n,
            (AssignStateValue::CancelDelay, AssignStateValue::CancelDelay) => true,
            (AssignStateValue::CompleteDelay, AssignStateValue::CompleteDelay) => true,
            (AssignStateValue::Force(a), AssignStateValue::Force(b)) => *a == *b,
            _ => false,
        }
    }
}

impl PartialEqSpecImpl for AssignStateValue {
    open spec fn obeys_eq_spec() -> bool {
        true
    }

    open spec fn eq_spec(&self, other: &Self) -> bool {
        self@ == other@
    }
}

/// What a `StateValue` stands for.
pub ghost struct CellView {
    /// The value of the variable.
    pub current: ValueView,
    /// The proposed next value, from an accepted proposal until the next
    /// commit or revert.
    pub next: Option<ValueView>,
    /// The value before the last change.
    pub prev: Option<ValueView>,
    /// The delayed change, from an accepted delay until it is completed or
    /// cancelled.
    pub delay: Option<DelayView>,
}

impl CellView {
    /// The cell of a variable that has the given value and no history.
    pub open spec fn fresh(value: ValueView) -> CellView {
        CellView { current: value, next: None, prev: None, delay: None }
    }

    /// Nothing is in flight: neither a proposed next value nor a delay.
    pub open spec fn is_clean(self) -> bool {
        self.next is None && self.delay is None
    }

    /// At most one change is in flight.
    pub open spec fn at_most_one_in_flight(self) -> bool {
        self.next is None || self.delay is None
    }

    /// The value as a reader that wants the newest sees it: the proposed next
    /// value if there is one, else the current value.
    pub open spec fn value(self) -> ValueView {
        match self.next {
            Some(v) => v,
            None => self.current,
        }
    }

    /// The cell after `value` was forced on it.
    pub open spec fn forced(self, value: ValueView) -> CellView {
        CellView { current: value, next: None, prev: Some(self.current), delay: None }
    }

    /// The outcome of a request on this cell: the cell as it is afterwards, or
    /// the reason for which the request is refused.
    pub open spec fn assigned(self, request: AssignView) -> Result<CellView, SPError> {
        match request {
            AssignView::Force(v) => Ok(self.forced(v)),
            AssignView::SPValue(v) => {
                if self.next is Some {
                    Err(SPError::OverwritePendingNext)
                } else if self.delay is Some {
                    Err(SPError::OverwriteDelay)
                } else {
                    Ok(CellView { next: Some(v), ..self })
                }
            },
            AssignView::Delay(v, millis) => {
                if self.next is Some {
                    Err(SPError::OverwritePendingNext)
                } else if self.delay is Some {
                    Err(SPError::OverwriteDelay)
                } else {
                    Ok(
                        CellView {
                            delay: Some(
                                DelayView { next_value: v, millis, has_been_spawned: false },
                            ),
                            ..self
                        },
                    )
                }
            },
            AssignView::CancelDelay => {
                if self.delay is Some {
                    Ok(CellView { delay: None, ..self })
                } else if self.current == ValueView::Unknown {
                    Err(SPError::CancelOnUnknown)
                } else {
                    Ok(self)
                }
            },
            AssignView::CompleteDelay => {
                match self.delay {
                    Some(d) => Ok(CellView { next: Some(d.next_value), delay: None, ..self }),
                    None => Err(SPError::CancelOnUnknown),
                }
            },
        }
    }

    /// The cell after a commit: a proposed next value becomes the current one
    /// and the old current value the previous one; a delay stays, marked as
    /// handed over to a timer.
    pub open spec fn committed(self) -> CellView {
        CellView {
            current: self.value(),
            next: None,
            prev: if self.next is Some {
                Some(self.current)
            } else {
                self.prev
            },
            delay: match self.delay {
                Some(d) => Some(DelayView { has_been_spawned: true, ..d }),
                None => None,
            },
        }
    }

    /// The cell after its proposed next value was given up.
    pub open spec fn reverted_next(self) -> CellView {
        CellView { next: None, ..self }
    }

    /// The cell after it went back to its previous value, if it has one. The
    /// proposed next value is given up whether it has one or not.
    pub open spec fn reverted_to_prev(self) -> CellView {
        match self.prev {
            Some(p) => CellView { current: p, next: None, prev: None, ..self },
            None => CellView { next: None, ..self },
        }
    }
}

/// A cell in which nothing is in flight accepts one proposal of a next
/// value, and refuses a second one that comes before the commit.
pub proof fn lemma_one_proposal_at_a_time(cell: CellView, first: ValueView, second: ValueView)
    requires
        cell.is_clean(),
    ensures
        cell.assigned(AssignView::SPValue(first)) == Ok::<CellView, SPError>(
            CellView { next: Some(first), ..cell },
        ),
        (CellView { next: Some(first), ..cell }).assigned(AssignView::SPValue(second)) == Err::<
            CellView,
            SPError,
        >(SPError::OverwritePendingNext),
        (CellView { next: Some(first), ..cell }).committed().is_clean(),
{
}

/// A commit makes a proposed next value the current one, the old current
/// value the previous one, and leaves nothing proposed. A cell in which
/// nothing is in flight, or whose delay was handed over to a timer before,
/// stays as it is.
pub proof fn lemma_commit_of_cell(cell: CellView)
    requires
        cell.at_most_one_in_flight(),
    ensures
        match cell.next {
            Some(v) => cell.committed() == (CellView {
                current: v,
                next: None,
                prev: Some(cell.current),
                delay: None,
            }),
            None => match cell.delay {
                Some(d) => cell.committed() == (CellView {
                    delay: Some(DelayView { has_been_spawned: true, ..d }),
                    ..cell
                }),
                None => cell.committed() == cell,
            },
        },
        cell.next is None && (cell.delay is None || cell.delay->0.has_been_spawned)
            ==> cell.committed() == cell,
{
}

/// No request, commit or revert leaves a cell with more than one change in
/// flight.
pub proof fn lemma_one_change_in_flight(cell: CellView, request: AssignView)
    requires
        cell.at_most_one_in_flight(),
    ensures
        cell.assigned(request) is Ok ==> cell.assigned(request)->Ok_0.at_most_one_in_flight(),
        cell.committed().at_most_one_in_flight(),
        cell.reverted_next().at_most_one_in_flight(),
        cell.reverted_to_prev().at_most_one_in_flight(),
{
}

/// The views of an optional value.
pub open spec fn option_view(value: Option<SPValue>) -> Option<ValueView> {
    match value {
        Some(v) => Some(v@),
        None => None,
    }
}

/// The views of an optional delay.
pub open spec fn delay_view(delay: Option<Delay>) -> Option<DelayView> {
    match delay {
        Some(d) => Some(d@),
        None => None,
    }
}

/// The cell of one variable: its current value, the proposed next value, the
/// previous value and a delayed change. At most one change is in flight.
#[derive(Debug)]
pub struct StateValue {
    current: SPValue,
    next: Option<SPValue>,
    prev: Option<SPValue>,
    delay: Option<Delay>,
}

impl View for StateValue {
    type V = CellView;

    closed spec fn view(&self) -> CellView {
        CellView {
            current: self.current@,
            next: option_view(self.next),
            prev: option_view(self.prev),
            delay: delay_view(self.delay),
        }
    }
}

fn clone_option(value: &Option<SPValue>) -> (copy: Option<SPValue>)
    ensures
        option_view(copy) == option_view(*value),
{
    match value {
        Some(v) => Some(v.clone()),
        None => None,
    }
}

impl Clone for StateValue {
    fn clone(&self) -> (copy: Self)
        ensures
            copy@ == self@,
    {
        proof {
            use_type_invariant(self);
        }
        StateValue {
            current: self.current.clone(),
            next: clone_option(&self.next),
            prev: clone_option(&self.prev),
            delay: match &self.delay {
                Some(d) => Some(d.clone()),
                None => None,
            },
        }
    }
}

impl PartialEq for StateValue {
    fn eq(&self, other: &Self) -> (same: bool) {
        self.current == other.current && self.next == other.next && self.prev == other.prev
            && self.delay == other.delay
    }
}

impl PartialEqSpecImpl for StateValue {
    open spec fn obeys_eq_spec() -> bool {
        true
    }

    open spec fn eq_spec(&self, other: &Self) -> bool {
        self@ == other@
    }
}

impl Default for StateValue {
    fn default() -> (cell: Self)
        ensures
            cell@ == CellView::fresh(ValueView::Unknown),
    {
        StateValue::new(SPValue::Unknown)
    }
}

impl StateValue {
    #[verifier::type_invariant]
    spec fn in_flight_invariant(&self) -> bool {
        self@.at_most_one_in_flight()
    }

    /// The cell of a variable that has the given value and no history.
    pub fn new(value: SPValue) -> (cell: StateValue)
        ensures
            cell@ == CellView::fresh(value@),
    {
        StateValue { current: value, next: None, prev: None, delay: None }
    }

    /// The cell with the given parts, or nothing if both a proposed next
    /// value and a delay are given: a cell holds one change in flight at
    /// most.
    pub fn from_parts(
        current: SPValue,
        next: Option<SPValue>,
        prev: Option<SPValue>,
        delay: Option<Delay>,
    ) -> (cell: Option<StateValue>)
        ensures
            cell is None == (next is Some && delay is Some),
            cell matches Some(c) ==> c@ == (CellView {
                current: current@,
                next: option_view(next),
                prev: option_view(prev),
                delay: delay_view(delay),
            }),
    {
        if next.is_some() && delay.is_some() {
            None
        } else {
            Some(StateValue { current, next, prev, delay })
        }
    }

    /// Carries out a request on the cell, or refuses it and leaves the cell as
    /// it is.
    pub fn assign(&mut self, request: AssignStateValue) -> (outcome: SPResult<()>)
        ensures
            match old(self)@.assigned(request@) {
                Ok(cell) => outcome is Ok && final(self)@ == cell,
                Err(reason) => outcome == Err::<(), SPError>(reason) && final(self)@ == old(self)@,
            },
    {
        match request {
            AssignStateValue::Force(v) => {
                self.force(v);
                Ok(())
            },
            AssignStateValue::SPValue(v) => {
                if self.next.is_some() {
                    Err(SPError::OverwritePendingNext)
                } else if self.delay.is_some() {
                    Err(SPError::OverwriteDelay)
                } else {
                    self.next = Some(v);
                    Ok(())
                }
            },
            AssignStateValue::Delay(v, millis) => {
                if self.next.is_some() {
                    Err(SPError::OverwritePendingNext)
                } else if self.delay.is_some() {
                    Err(SPError::OverwriteDelay)
                } else {
                    self.delay = Some(Delay { next_value: v, millis, has_been_spawned: false });
                    Ok(())
                }
            },
            AssignStateValue::CancelDelay => {
                if self.delay.is_some() {
                    self.delay = None;
                    Ok(())
                } else if self.current.is_unknown() {
                    Err(SPError::CancelOnUnknown)
                } else {
                    Ok(())
                }
            },
            AssignStateValue::CompleteDelay => {
                let mut delay: Option<Delay> = None;
                std::mem::swap(&mut self.delay, &mut delay);
                match delay {
                    Some(d) => {
                        self.next = Some(d.next_value);
                        Ok(())
                    },
                    None => Err(SPError::CancelOnUnknown),
                }
            },
        }
    }

    /// Proposes `value` as the next value. Returns whether the proposal was
    /// accepted, which it is when nothing is in flight.
    pub fn next(&mut self, value: SPValue) -> (accepted: bool)
        ensures
            accepted == old(self)@.is_clean(),
            accepted ==> final(self)@ == (CellView { next: Some(value@), ..old(self)@ }),
            !accepted ==> final(self)@ == old(self)@,
    {
        self.assign(AssignStateValue::SPValue(value)).is_ok()
    }

    /// Commits the cell. Returns whether a proposed next value became the
    /// current one.
    pub fn take(&mut self) -> (promoted: bool)
        ensures
            promoted == old(self)@.next is Some,
            final(self)@ == old(self)@.committed(),
    {
        let mut next: Option<SPValue> = None;
        std::mem::swap(&mut self.next, &mut next);
        let mut delay: Option<Delay> = None;
        std::mem::swap(&mut self.delay, &mut delay);
        match delay {
            Some(d) => {
                self.delay = Some(
                    Delay { next_value: d.next_value, millis: d.millis, has_been_spawned: true },
                );
            },
            None => {},
        }
        match next {
            Some(n) => {
                let mut p = n;
                std::mem::swap(&mut self.current, &mut p);
                self.prev = Some(p);
                true
            },
            None => false,
        }
    }

    /// Sets the current value at once. The old current value becomes the
    /// previous one, and nothing stays in flight.
    pub fn force(&mut self, value: SPValue)
        ensures
            final(self)@ == old(self)@.forced(value@),
    {
        self.next = None;
        self.delay = None;
        let mut p = value;
        std::mem::swap(&mut self.current, &mut p);
        self.prev = Some(p);
    }

    /// Gives up the proposed next value, if there is one.
    pub fn revert_next(&mut self)
        ensures
            final(self)@ == old(self)@.reverted_next(),
    {
        self.next = None;
    }

    /// Goes back to the previous value, if there is one, and gives up the
    /// proposed next value, whether there is a previous value or not.
    pub fn revert_to_prev(&mut self)
        ensures
            final(self)@ == old(self)@.reverted_to_prev(),
    {
        self.next = None;
        let mut prev: Option<SPValue> = None;
        std::mem::swap(&mut self.prev, &mut prev);
        match prev {
            Some(p) => {
                self.current = p;
            },
            None => {},
        }
    }

    /// Whether a proposed next value is waiting for the commit. A cell that
    /// has one has no delay.
    pub fn has_next(&self) -> (pending: bool)
        ensures
            pending == self@.next is Some,
            self@.at_most_one_in_flight(),
    {
        proof {
            use_type_invariant(self);
        }
        self.next.is_some()
    }

    /// Whether a delayed change is in flight. A cell that has one has no
    /// proposed next value.
    pub fn has_delay(&self) -> (delayed: bool)
        ensures
            delayed == self@.delay is Some,
            self@.at_most_one_in_flight(),
    {
        proof {
            use_type_invariant(self);
        }
        self.delay.is_some()
    }

    /// Whether the request would be carried out. The cell stays as it is.
    pub fn is_allowed(&self, request: &AssignStateValue) -> (allowed: bool)
        ensures
            allowed == self@.assigned(request@) is Ok,
    {
        match request {
            AssignStateValue::Force(_) => true,
            AssignStateValue::SPValue(_) => self.next.is_none() && self.delay.is_none(),
            AssignStateValue::Delay(_, _) => self.next.is_none() && self.delay.is_none(),
            AssignStateValue::CancelDelay => self.delay.is_some() || !self.current.is_unknown(),
            AssignStateValue::CompleteDelay => self.delay.is_some(),
        }
    }

    /// The proposed next value if there is one, else the current value.
    pub fn value(&self) -> (value: &SPValue)
        ensures
            value@ == self@.value(),
    {
        match self.next {
            Some(ref x) => x,
            None => &self.current,
        }
    }

    /// The current value.
    pub fn current_value(&self) -> (value: &SPValue)
        ensures
            value@ == self@.current,
    {
        &self.current
    }

    /// The proposed next value.
    pub fn next_value(&self) -> (value: &Option<SPValue>)
        ensures
            option_view(*value) == self@.next,
    {
        &self.next
    }

    /// The value before the last change.
    pub fn previous_value(&self) -> (value: &Option<SPValue>)
        ensures
            option_view(*value) == self@.prev,
    {
        &self.prev
    }

    /// The delayed change.
    pub fn delay(&self) -> (delay: &Option<Delay>)
        ensures
            delay_view(*delay) == self@.delay,
    {
        &self.delay
    }

    /// Turns the cell into its value: the proposed next value if there is
    /// one, else the current value.
    pub fn extract(self) -> (value: SPValue)
        ensures
            value@ == self@.value(),
    {
        match self.next {
            Some(x) => x,
            None => self.current,
        }
    }
}

} // verus!
