//! The driver: which pass to run, when to suspend and when to tear down,
//! decided from the events that the surrounding scheduler reports.
use vstd::prelude::*;
use crate::channel::{send_checked, Channel, Closed};
use crate::identity::ScopeId;
use crate::identity::Moniker;
use crate::scope::{
    dropped_cell, got_or_created, is_current, is_live, kept_cell, restarted, unvisited_scope, visited_scope,
    handle_written, value_of, written, Cell, Handle, ComposeError, Counter, Retired, ScopeInfo, Scopes,
};

verus! {

#[derive(Clone, Copy, Debug, PartialEq, Eq, Structural)]
pub enum Phase {
    /// Not started yet.
    Idle,
    /// A pass is in progress.
    Running,
    /// Between passes, waiting for a wake.
    Suspended,
    /// Cancelled or failed; no pass starts any more.
    Finished,
}

#[derive(Clone, Copy, Debug, PartialEq, Eq, Structural)]
pub enum Event {
    Start,
    /// The root call returned.
    PassDone,
    /// Evaluating the composed program failed.
    PassFailed,
    /// A write or a send happened.
    Wake,
    Cancel,
}

#[derive(Clone, Copy, Debug, PartialEq, Eq, Structural)]
pub enum Action {
    /// Run one pass over the root scope.
    RunPass,
    /// Yield until a wake or a cancellation.
    Suspend,
    /// Remove every scope and finalize it.
    Teardown,
    Nothing,
}

/// The driver's control state.
#[derive(Clone, Copy, Debug, PartialEq, Eq, Structural)]
pub struct Control {
    pub phase: Phase,
    /// A wake arrived during the current pass.
    pub woken: bool,
    /// A cancellation arrived during the current pass.
    pub cancelled: bool,
}

/// The transition table: the next control state and the action to perform.
/// Cancellation is observed only between passes; a wake during a pass makes
/// the next pass start as soon as this one is done.
pub open spec fn next(c: Control, e: Event) -> (Control, Action) {
    let stay = (c, Action::Nothing);
    match e {
        Event::Start => if c.phase == Phase::Idle {
            (Control { phase: Phase::Running, woken: false, cancelled: false }, Action::RunPass)
        } else {
            stay
        },
        Event::Wake => match c.phase {
            Phase::Running => (Control { woken: true, ..c }, Action::Nothing),
            Phase::Suspended => (
                Control { phase: Phase::Running, woken: false, cancelled: false },
                Action::RunPass,
            ),
            _ => stay,
        },
        Event::Cancel => match c.phase {
            Phase::Running => (Control { cancelled: true, ..c }, Action::Nothing),
            Phase::Suspended => (Control { phase: Phase::Finished, ..c }, Action::Teardown),
            Phase::Idle => (Control { phase: Phase::Finished, ..c }, Action::Nothing),
            Phase::Finished => stay,
        },
        Event::PassDone => if c.phase != Phase::Running {
            stay
        } else if c.cancelled {
            (Control { phase: Phase::Finished, ..c }, Action::Teardown)
        } else if c.woken {
            (Control { phase: Phase::Running, woken: false, cancelled: false }, Action::RunPass)
        } else {
            (Control { phase: Phase::Suspended, ..c }, Action::Suspend)
        },
        Event::PassFailed => if c.phase == Phase::Running {
            (Control { phase: Phase::Finished, ..c }, Action::Teardown)
        } else {
            stay
        },
    }
}

/// Computes one transition of the driver.
pub fn step(c: Control, e: Event) -> (r: (Control, Action))
    ensures
        r == next(c, e),
{
    let stay = (c, Action::Nothing);
    match e {
        Event::Start => if c.phase == Phase::Idle {
            (Control { phase: Phase::Running, woken: false, cancelled: false }, Action::RunPass)
        } else {
            stay
        },
        Event::Wake => match c.phase {
            Phase::Running => (Control { woken: true, ..c }, Action::Nothing),
            Phase::Suspended => (
                Control { phase: Phase::Running, woken: false, cancelled: false },
                Action::RunPass,
            ),
            _ => stay,
        },
        Event::Cancel => match c.phase {
            Phase::Running => (Control { cancelled: true, ..c }, Action::Nothing),
            Phase::Suspended => (Control { phase: Phase::Finished, ..c }, Action::Teardown),
            Phase::Idle => (Control { phase: Phase::Finished, ..c }, Action::Nothing),
            Phase::Finished => stay,
        },
        Event::PassDone => if c.phase != Phase::Running {
            stay
        } else if c.cancelled {
            (Control { phase: Phase::Finished, ..c }, Action::Teardown)
        } else if c.woken {
            (Control { phase: Phase::Running, woken: false, cancelled: false }, Action::RunPass)
        } else {
            (Control { phase: Phase::Suspended, ..c }, Action::Suspend)
        },
        Event::PassFailed => if c.phase == Phase::Running {
            (Control { phase: Phase::Finished, ..c }, Action::Teardown)
        } else {
            stay
        },
    }
}

/// A wake that arrives before a pass reaches its suspend point is not
/// deferred: the next pass starts right after this one, and a wake while
/// suspended starts a pass at once.
pub proof fn lemma_wake_not_deferred(c: Control)
    requires
        c.phase == Phase::Running,
        !c.cancelled,
    ensures
        next(next(c, Event::Wake).0, Event::PassDone).1 == Action::RunPass,
        next(next(next(c, Event::PassDone).0, Event::Wake).0, Event::PassDone).1 != Action::Teardown,
        !c.woken ==> next(next(c, Event::PassDone).0, Event::Wake).1 == Action::RunPass,
{
}

/// Cancelling while suspended tears down at once, and once finished the
/// driver starts no pass and tears down no more, whatever happens.
pub proof fn lemma_cancel_final(c: Control, e: Event)
    requires
        c.phase == Phase::Suspended,
    ensures
        next(c, Event::Cancel).1 == Action::Teardown,
        next(c, Event::Cancel).0.phase == Phase::Finished,
        next(next(c, Event::Cancel).0, e) == (next(c, Event::Cancel).0, Action::Nothing),
{
}

/// A write through a handle to a live scope, made before a pass's suspend
/// point, retires no scope, and the next pass reads it: starting that pass
/// keeps every cell, and entering the scope keeps its cells.
pub proof fn lemma_write_seen_next_pass(
    s0: Scopes,
    s1: Scopes,
    s2: Scopes,
    s3: Scopes,
    id: ScopeId,
    key: u64,
    v: u64,
    r: Result<(), ComposeError>,
)
    requires
        is_live(s0.scopes_view(), id),
        written(s0, s1, id, key, v),
        s2.cells_view() == s1.cells_view(),
        got_or_created(s2, s3, id, r),
    ensures
        is_live(s1.scopes_view(), id),
        s1.scopes_view().len() == s0.scopes_view().len(),
        value_of(s3.cells_view(), id, key) == v,
{
    let w = choose|w: int| 0 <= w < s0.scopes_view().len() && #[trigger] s0.scopes_view()[w].id == id;
    assert(s1.scopes_view()[w].id == id);
}

/// The runtime that a composed program runs against: it owns the registry.
pub trait Runtime {
    /// The registry this runtime owns.
    spec fn registry(&self) -> Scopes;

    fn scopes(&self) -> (r: &Scopes)
        ensures
            *r == self.registry(),
    ;

    /// Enters scope `id` in the current pass: reuses the live scope with its
    /// cells, or creates an empty one under its recorded parent; entering an
    /// identity a second time in one pass is an `IdentityCollision`. The root
    /// is entered by every pass as it begins, so entering it here always is one.
    fn scope(&mut self, id: ScopeId) -> (r: Result<(), ComposeError>)
        requires
            old(self).registry().wf(),
            id <= old(self).registry().ids_view().len(),
            old(self).registry().created_view() < u64::MAX,
        ensures
            got_or_created(old(self).registry(), final(self).registry(), id, r),
    ;

    /// The bookkeeping of live scope `id`, if there is one.
    fn lookup(&self, id: ScopeId) -> (r: Option<ScopeInfo>)
        ensures
            match r {
                Some(x) => x.id == id && self.registry().scopes_view().contains(x),
                None => !is_live(self.registry().scopes_view(), id),
            },
    {
        self.scopes().info(id)
    }
}

impl Handle {
    /// Writes `v` through this handle and wakes the driver.
    pub fn set(&self, d: &mut Driver, v: u64) -> (r: Action)
        requires
            old(d).wf(),
        ensures
            final(d).wf(),
            (final(d).control, r) == next(old(d).control, Event::Wake),
            handle_written(old(d).registry, final(d).registry, *self, v),
    {
        d.set(*self, v)
    }
}

/// One run: the registry and the control state of the driver.
pub struct Driver {
    pub registry: Scopes,
    pub control: Control,
}

impl Runtime for Driver {
    open spec fn registry(&self) -> Scopes {
        self.registry
    }

    fn scopes(&self) -> (r: &Scopes) {
        &self.registry
    }

    fn scope(&mut self, id: ScopeId) -> (r: Result<(), ComposeError>) {
        self.registry.get_or_create(id)
    }
}

impl Driver {
    pub open spec fn wf(&self) -> bool {
        self.registry.wf()
    }

    /// A driver that has not started, over a registry holding only the
    /// visited root scope.
    pub fn new() -> (r: Driver)
        ensures
            r.wf(),
            r.control == (Control { phase: Phase::Idle, woken: false, cancelled: false }),
            r.registry.ids_view() == Seq::<Moniker>::empty(),
            r.registry.scopes_view() == seq![ScopeInfo { id: 0, parent: 0, dirty: false, visited: true, generation: 0 }],
            r.registry.cells_view() == Seq::<Cell>::empty(),
            r.registry.counters_view() == Seq::<Counter>::empty(),
            r.registry.created_view() == 1,
    {
        Driver {
            registry: Scopes::new(),
            control: Control { phase: Phase::Idle, woken: false, cancelled: false },
        }
    }

    pub fn phase(&self) -> (r: Phase)
        ensures
            r == self.control.phase,
    {
        self.control.phase
    }

    /// Takes in an event and says what to do next.
    pub fn handle(&mut self, e: Event) -> (r: Action)
        requires
            old(self).wf(),
        ensures
            final(self).wf(),
            final(self).registry == old(self).registry,
            (final(self).control, r) == next(old(self).control, e),
    {
        let (c, a) = step(self.control, e);
        self.control = c;
        a
    }

    /// Starts the pass that `Action::RunPass` asked for.
    pub fn begin_pass(&mut self)
        requires
            old(self).wf(),
        ensures
            final(self).wf(),
            final(self).control == old(self).control,
            final(self).registry.ids_view() == old(self).registry.ids_view(),
            final(self).registry.cells_view() == old(self).registry.cells_view(),
            final(self).registry.scopes_view() == restarted(old(self).registry.scopes_view()),
            final(self).registry.counters_view() == Seq::<Counter>::empty(),
    {
        self.registry.begin_pass();
    }

    /// Ends a pass whose root call returned: the scopes it did not enter are
    /// retired and handed back, and the next action is decided.
    pub fn complete_pass(&mut self) -> (r: (Retired, Action))
        requires
            old(self).wf(),
        ensures
            final(self).wf(),
            (final(self).control, r.1) == next(old(self).control, Event::PassDone),
            final(self).registry.ids_view() == old(self).registry.ids_view(),
            final(self).registry.scopes_view() == old(self).registry.scopes_view().filter(
                visited_scope(),
            ),
            final(self).registry.cells_view() == old(self).registry.cells_view().filter(
                kept_cell(old(self).registry.scopes_view()),
            ),
            r.0.scopes@ == old(self).registry.scopes_view().filter(unvisited_scope()),
            r.0.cells@ == old(self).registry.cells_view().filter(
                dropped_cell(old(self).registry.scopes_view()),
            ),
    {
        let retired = self.registry.end_pass();
        let a = self.handle(Event::PassDone);
        (retired, a)
    }

    /// Sends `v` on `ch`; a value sent wakes the driver. A channel whose
    /// owning scope instance was retired is closed, and the send fails.
    pub fn send(&mut self, ch: &mut Channel, v: u64) -> (r: Result<Action, Closed>)
        requires
            old(self).wf(),
            old(ch).wf(),
        ensures
            final(self).wf(),
            final(self).registry == old(self).registry,
            final(ch).wf(),
            final(ch).owner() == old(ch).owner(),
            final(ch).owner_generation() == old(ch).owner_generation(),
            r is Ok <==> old(ch).is_open() && is_current(
                old(self).registry.scopes_view(),
                old(ch).owner(),
                old(ch).owner_generation(),
            ),
            r is Ok ==> final(ch).pending() == old(ch).pending().push(v),
            r is Err ==> !final(ch).is_open() && final(ch).pending() == Seq::<u64>::empty(),
            match r {
                Ok(a) => (final(self).control, a) == next(old(self).control, Event::Wake),
                Err(_) => final(self).control == old(self).control,
            },
    {
        match send_checked(&self.registry, ch, v) {
            Ok(()) => Ok(self.handle(Event::Wake)),
            Err(e) => Err(e),
        }
    }

    /// Writes through handle `h`: the registry changes as `Scopes::write_handle`
    /// says, and the driver is woken.
    pub fn set(&mut self, h: Handle, v: u64) -> (r: Action)
        requires
            old(self).wf(),
        ensures
            final(self).wf(),
            (final(self).control, r) == next(old(self).control, Event::Wake),
            handle_written(old(self).registry, final(self).registry, h, v),
    {
        self.registry.write_handle(h, v);
        self.handle(Event::Wake)
    }
}

} // verus!
