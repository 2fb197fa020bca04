use moxie::channel::{receive, Channel, Closed};
use moxie::driver::{step, Action, Control, Driver, Event, Phase, Runtime};
use moxie::identity::{Key, ROOT};
use moxie::scope::{ComposeError, Scopes};
use moxie::workspace::Workspace;

const SITE: u64 = 11;

#[test]
fn identity_is_deterministic_and_distinct() {
    let mut s = Scopes::new();
    let a = s.allocate(ROOT, 1, Key::Explicit(5));
    assert_eq!(s.allocate(ROOT, 1, Key::Explicit(5)), a);
    let by_key = s.allocate(ROOT, 1, Key::Explicit(6));
    let by_site = s.allocate(ROOT, 2, Key::Explicit(5));
    let by_parent = s.allocate(a, 1, Key::Explicit(5));
    let auto = s.allocate(ROOT, 1, Key::Auto(5));
    let all = [a, by_key, by_site, by_parent, auto];
    for i in 0..all.len() {
        for j in 0..i {
            assert_ne!(all[i], all[j]);
        }
    }
    assert_eq!(s.issued(), 5);
    assert_eq!(s.allocate(a, 1, Key::Explicit(5)), by_parent);
}

#[test]
fn scope_is_reused_with_its_cells() {
    let mut s = Scopes::new();
    s.begin_pass();
    let id = s.enter(ROOT, SITE, 0).unwrap();
    assert_eq!(s.get(id, 0), 0);
    s.write(id, 0, 7);
    let gone = s.end_pass();
    assert!(gone.scopes.is_empty());
    s.begin_pass();
    assert_eq!(s.enter(ROOT, SITE, 0), Ok(id));
    assert_eq!(s.get(id, 0), 7);
    assert_eq!(s.revision(id, 0), 1);
    s.end_pass();
    assert_eq!(s.get(id, 0), 7);
}

#[test]
fn unvisited_scope_is_retired_and_starts_fresh() {
    let mut s = Scopes::new();
    s.begin_pass();
    let id = s.enter(ROOT, SITE, 3).unwrap();
    s.write(id, 0, 42);
    s.end_pass();
    s.begin_pass();
    let gone = s.end_pass();
    assert_eq!(gone.scopes.len(), 1);
    assert_eq!(gone.scopes[0].id, id);
    assert_eq!(gone.cells.len(), 1);
    assert_eq!(gone.cells[0].value, 42);
    assert!(!s.contains(id));
    assert_eq!(s.cell_count(), 0);
    s.begin_pass();
    assert_eq!(s.enter(ROOT, SITE, 3), Ok(id));
    assert_eq!(s.get(id, 0), 0);
    assert_eq!(s.revision(id, 0), 0);
}

#[test]
fn write_marks_scope_and_ancestors_only() {
    let mut s = Scopes::new();
    s.begin_pass();
    let a = s.enter(ROOT, 1, 0).unwrap();
    let b = s.enter(a, 2, 0).unwrap();
    let c = s.enter(b, 3, 0).unwrap();
    let other = s.enter(ROOT, 4, 0).unwrap();
    let below = s.enter(c, 5, 0).unwrap();
    s.end_pass();
    s.begin_pass();
    for id in [ROOT, a, b, c, other, below] {
        assert!(!s.dirty(id));
    }
    s.write(c, 0, 1);
    assert!(s.dirty(c));
    assert!(s.dirty(b));
    assert!(s.dirty(a));
    assert!(s.dirty(ROOT));
    assert!(!s.dirty(other));
    assert!(!s.dirty(below));
    s.mark_dirty(c);
    assert!(!s.dirty(other));
}

#[test]
fn write_to_retired_scope_changes_nothing() {
    let mut s = Scopes::new();
    s.begin_pass();
    let id = s.enter(ROOT, SITE, 0).unwrap();
    s.end_pass();
    s.begin_pass();
    s.end_pass();
    s.write(id, 0, 9);
    assert_eq!(s.cell_count(), 0);
    assert!(!s.dirty(ROOT));
    assert_eq!(s.get(id, 0), 0);
}

#[test]
fn revision_counts_writes() {
    let mut s = Scopes::new();
    s.write(ROOT, 1, 10);
    s.write(ROOT, 1, 20);
    s.write(ROOT, 2, 30);
    assert_eq!(s.get(ROOT, 1), 20);
    assert_eq!(s.revision(ROOT, 1), 2);
    assert_eq!(s.get(ROOT, 2), 30);
    assert_eq!(s.revision(ROOT, 2), 1);
    assert_eq!(s.cell_count(), 2);
}

#[test]
fn same_key_twice_in_a_pass_is_a_collision() {
    let mut s = Scopes::new();
    s.begin_pass();
    let id = s.enter(ROOT, SITE, 1).unwrap();
    s.write(id, 0, 5);
    assert_eq!(s.enter(ROOT, SITE, 1), Err(ComposeError::IdentityCollision));
    assert_eq!(s.get(id, 0), 5);
    assert_eq!(s.len(), 2);
}

#[test]
fn unkeyed_calls_are_counted_per_pass() {
    let mut s = Scopes::new();
    s.begin_pass();
    let first = s.enter_unkeyed(ROOT, SITE).unwrap();
    let second = s.enter_unkeyed(ROOT, SITE).unwrap();
    let elsewhere = s.enter_unkeyed(ROOT, SITE + 1).unwrap();
    assert_ne!(first, second);
    assert_ne!(first, elsewhere);
    assert_ne!(second, elsewhere);
    s.end_pass();
    s.begin_pass();
    assert_eq!(s.enter_unkeyed(ROOT, SITE), Ok(first));
    assert_eq!(s.enter_unkeyed(ROOT, SITE), Ok(second));
    assert_ne!(s.enter(ROOT, SITE, 0), Ok(first));
}

#[test]
fn wake_during_pass_runs_next_pass_at_once() {
    let mut d = Driver::new();
    assert_eq!(d.handle(Event::Start), Action::RunPass);
    d.registry.begin_pass();
    let id = d.registry.enter(ROOT, SITE, 0).unwrap();
    d.registry.end_pass();
    let h = d.registry.handle(id, 0).unwrap();
    assert_eq!(d.set(h, 8), Action::Nothing);
    assert_eq!(d.handle(Event::PassDone), Action::RunPass);
    d.begin_pass();
    assert_eq!(d.scope(id), Ok(()));
    assert_eq!(d.registry.get(id, 0), 8);
    let (gone, action) = d.complete_pass();
    assert!(gone.scopes.is_empty());
    assert_eq!(action, Action::Suspend);
    assert_eq!(d.phase(), Phase::Suspended);
    assert_eq!(d.set(h, 9), Action::RunPass);
    assert_eq!(d.registry.get(id, 0), 9);
}

#[test]
fn cancel_while_suspended_tears_down_once() {
    let mut d = Driver::new();
    d.handle(Event::Start);
    d.registry.begin_pass();
    let a = d.registry.enter(ROOT, 1, 0).unwrap();
    let b = d.registry.enter(ROOT, 1, 1).unwrap();
    d.registry.write(a, 0, 1);
    d.registry.write(b, 0, 2);
    d.registry.write(b, 1, 3);
    d.registry.end_pass();
    assert_eq!(d.handle(Event::PassDone), Action::Suspend);
    assert_eq!(d.handle(Event::Cancel), Action::Teardown);
    let gone = d.registry.teardown();
    assert_eq!(gone.scopes.len(), 3);
    assert_eq!(gone.cells.len(), 3);
    assert_eq!(d.registry.len(), 0);
    for e in [Event::Start, Event::Wake, Event::PassDone, Event::Cancel, Event::PassFailed] {
        assert_eq!(d.handle(e), Action::Nothing);
    }
    assert_eq!(d.phase(), Phase::Finished);
}

#[test]
fn cancel_during_pass_waits_for_suspend_point() {
    let c = Control { phase: Phase::Running, woken: true, cancelled: false };
    let (c, a) = step(c, Event::Cancel);
    assert_eq!(a, Action::Nothing);
    assert_eq!(step(c, Event::PassDone).1, Action::Teardown);
}

#[test]
fn failed_pass_is_terminal() {
    let c = Control { phase: Phase::Running, woken: true, cancelled: false };
    let (c, a) = step(c, Event::PassFailed);
    assert_eq!(a, Action::Teardown);
    assert_eq!(c.phase, Phase::Finished);
    assert_eq!(step(c, Event::Wake).1, Action::Nothing);
}

#[test]
fn send_after_receiver_dropped_is_closed() {
    let mut ch = Channel::new(ROOT, 0);
    assert_eq!(ch.send(1), Ok(()));
    ch.drop_receiver();
    assert!(ch.is_closed());
    assert_eq!(ch.len(), 0);
    assert_eq!(ch.send(2), Err(Closed {}));
    assert_eq!(ch.try_recv(), None);
}

#[test]
fn last_sender_dropped_closes() {
    let mut ch = Channel::new(ROOT, 0);
    ch.add_sender();
    ch.send(4).unwrap();
    ch.drop_sender();
    assert!(!ch.is_closed());
    assert_eq!(ch.len(), 1);
    ch.drop_sender();
    assert!(ch.is_closed());
    assert_eq!(ch.len(), 0);
    assert_eq!(ch.send(5), Err(Closed {}));
}

#[test]
fn receive_takes_oldest_and_marks_owner() {
    let mut d = Driver::new();
    d.handle(Event::Start);
    d.registry.begin_pass();
    let id = d.registry.enter(ROOT, SITE, 0).unwrap();
    d.registry.end_pass();
    d.handle(Event::PassDone);
    let mut ch = Channel::new(id, d.lookup(id).unwrap().generation);
    assert_eq!(d.send(&mut ch, 1), Ok(Action::RunPass));
    assert_eq!(d.send(&mut ch, 2), Ok(Action::Nothing));
    d.registry.begin_pass();
    assert!(!d.registry.dirty(id));
    assert_eq!(receive(&mut d.registry, &mut ch), Some(1));
    assert!(d.registry.dirty(id));
    assert!(d.registry.dirty(ROOT));
    assert_eq!(receive(&mut d.registry, &mut ch), Some(2));
    assert_eq!(receive(&mut d.registry, &mut ch), None);
}

fn compose(s: &mut Scopes, items: &[u64]) -> Vec<u64> {
    s.begin_pass();
    let mut ids = Vec::new();
    for (i, _) in items.iter().enumerate() {
        let id = s.enter(ROOT, SITE, i as u64).unwrap();
        s.write(id, 0, i as u64);
        ids.push(id);
    }
    s.end_pass();
    ids
}

#[test]
fn list_shrinks_from_three_children_to_two() {
    let mut s = Scopes::new();
    let first = compose(&mut s, &[10, 20, 30]);
    assert_eq!(s.len(), 4);
    let values: Vec<u64> = first.iter().map(|&id| s.get(id, 0)).collect();
    assert_eq!(values, vec![0, 1, 2]);
    let second = compose(&mut s, &[10, 20]);
    assert_eq!(second, first[..2].to_vec());
    assert_eq!(s.len(), 3);
    assert_eq!(s.get(second[0], 0), 0);
    assert_eq!(s.get(second[1], 0), 1);
    assert!(!s.contains(first[2]));
    assert_eq!(s.cell_count(), 2);
}

#[test]
fn runtime_looks_up_scopes() {
    let d = Driver::new();
    let root = d.lookup(ROOT).unwrap();
    assert_eq!(root.id, ROOT);
    assert!(root.visited);
    assert!(d.lookup(1).is_none());
    assert_eq!(d.scopes().len(), 1);
}

#[test]
fn runtime_scope_gets_or_creates() {
    let mut d = Driver::new();
    d.begin_pass();
    let id = d.registry.allocate(ROOT, SITE, Key::Explicit(1));
    assert!(d.lookup(id).is_none());
    assert_eq!(d.scope(id), Ok(()));
    let info = d.lookup(id).unwrap();
    assert_eq!(info.parent, ROOT);
    assert!(info.visited);
    assert_eq!(d.registry.get(id, 0), 0);
    d.registry.write(id, 0, 7);
    assert_eq!(d.scope(id), Err(ComposeError::IdentityCollision));
    assert_eq!(d.registry.get(id, 0), 7);
    let (gone, _) = d.complete_pass();
    assert!(gone.scopes.is_empty());
    d.begin_pass();
    assert_eq!(d.scope(id), Ok(()));
    assert_eq!(d.registry.get(id, 0), 7);
    assert_eq!(d.scopes().len(), 2);
}

#[test]
fn workspace_keeps_its_root() {
    let w = Workspace::new("project/workspace.honk");
    assert_eq!(w.root(), "project/workspace.honk");
}

#[test]
fn handle_writes_wakes_and_outlives_its_scope() {
    let mut d = Driver::new();
    d.handle(Event::Start);
    d.begin_pass();
    let id = d.registry.enter(ROOT, SITE, 0).unwrap();
    let (_, action) = d.complete_pass();
    assert_eq!(action, Action::Suspend);
    let h = d.registry.handle(id, 2).unwrap();
    assert_eq!(h.set(&mut d, 5), Action::RunPass);
    assert_eq!(d.registry.get(id, 2), 5);
    assert!(d.registry.dirty(id));
    d.begin_pass();
    let (gone, action) = d.complete_pass();
    assert_eq!(gone.scopes.len(), 1);
    assert_eq!(action, Action::Suspend);
    assert!(!d.registry.contains(id));
    assert_eq!(h.set(&mut d, 6), Action::RunPass);
    assert_eq!(d.registry.cell_count(), 0);
    d.begin_pass();
    assert_eq!(d.scope(id), Ok(()));
    assert_ne!(d.lookup(id).unwrap().generation, h.generation);
    assert!(!d.registry.dirty(ROOT));
    assert_eq!(h.set(&mut d, 7), Action::Nothing);
    assert_eq!(d.registry.get(id, 2), 0);
    assert!(!d.registry.dirty(id));
    let fresh = d.registry.handle(id, 2).unwrap();
    d.set(fresh, 8);
    assert_eq!(d.registry.get(id, 2), 8);
}

#[test]
fn channel_closes_with_its_scope() {
    let mut d = Driver::new();
    d.handle(Event::Start);
    d.begin_pass();
    let id = d.registry.enter(ROOT, SITE, 0).unwrap();
    let mut ch = Channel::new(id, d.lookup(id).unwrap().generation);
    assert_eq!(d.send(&mut ch, 1), Ok(Action::Nothing));
    d.complete_pass();
    d.begin_pass();
    d.complete_pass();
    assert_eq!(d.send(&mut ch, 2), Err(Closed {}));
    assert!(ch.is_closed());
    d.begin_pass();
    d.scope(id).unwrap();
    assert_eq!(receive(&mut d.registry, &mut ch), None);
    assert!(!d.registry.dirty(id));
}

#[test]
fn teardown_returns_parents_first() {
    let mut s = Scopes::new();
    s.begin_pass();
    let parent = s.allocate(ROOT, 1, Key::Explicit(0));
    let child = s.enter(parent, 2, 0).unwrap();
    assert_eq!(s.get_or_create(parent), Ok(()));
    let grandchild = s.enter(child, 3, 0).unwrap();
    let gone = s.teardown();
    let ids: Vec<u64> = gone.scopes.iter().map(|x| x.id).collect();
    assert_eq!(ids, vec![ROOT, parent, child, grandchild]);
}
