use futures_lite::Stream;
use swansong::handles::{Interrupt, Stop, Swansong};

fn next<I: Iterator>(i: &mut Interrupt<I>, t: &ShutdownTree) -> Option<I::Item> {
    if i.is_stopped(t) {
        None
    } else {
        i.get_mut().next()
    }
}
use swansong::tree::ShutdownTree;
use swansong::wait::interrupted_size_hint;

#[test]
fn eq_and_assorted_other_conveniences() {
    let mut t = ShutdownTree::new();
    let swansong = Swansong::new(&mut t);
    let other = Swansong::new(&mut t);
    let sc = swansong.clone_handle(&mut t);
    assert_eq!(swansong, sc);
    let oc = other.clone_handle(&mut t);
    assert_ne!(swansong, oc);

    let guard = swansong.guard(&mut t);
    let gc = guard.clone_guard(&mut t);
    assert_eq!(guard, gc);
    let g2 = swansong.guard(&mut t);
    assert_eq!(guard, g2);
    let og = other.guard(&mut t);
    assert_ne!(guard, og);

    let guarded = swansong.guarded(&mut t, String::from("hello"));
    assert_eq!(guarded.get_ref(), &String::from("hello"));
    assert_eq!(guarded.get_ref().parse::<u8>().ok(), None);
    let one = swansong.guarded(&mut t, "1");
    assert_eq!(one.get_ref().parse::<u8>().unwrap(), 1);

    let interrupt = swansong.interrupt(1);
    assert_eq!(interrupt.get_ref(), &1);

    let n: i32 = interrupt.into_inner(&mut t);
    assert_eq!(n, 1);
    assert_eq!(swansong.guard_count(&t), 5);
}

#[test]
fn guarded_into_inner_releases_the_guard() {
    let mut t = ShutdownTree::new();
    let s = Swansong::new(&mut t);
    let g = s.guarded(&mut t, vec![1u8, 2, 3]);
    assert_eq!(s.guard_count(&t), 1);
    let v = g.into_inner(&mut t);
    assert_eq!(v, vec![1u8, 2, 3]);
    assert_eq!(s.guard_count(&t), 0);
}

#[test]
fn interrupt_guarded_counts_until_into_inner() {
    let mut t = ShutdownTree::new();
    let s = Swansong::new(&mut t);
    let i = s.interrupt(5u32).guarded(&mut t);
    assert_eq!(s.guard_count(&t), 1);
    // a second call does not take a second guard
    let i = i.guarded(&mut t);
    assert_eq!(s.guard_count(&t), 1);
    let mut c = s.shut_down(&mut t);
    assert!(i.is_stopped(&t));
    assert!(!c.is_ready(&t));
    assert_eq!(i.into_inner(&mut t), 5);
    assert!(c.is_ready(&t));
}

#[test]
fn interrupt_guarded_on_collected_scope_takes_no_guard() {
    let mut t = ShutdownTree::new();
    let parent = Swansong::new(&mut t);
    let child = parent.child(&mut t);
    let i = child.interrupt(());
    child.release(&mut t);
    let i = i.guarded(&mut t);
    assert_eq!(parent.guard_count(&t), 0);
    assert!(i.is_stopped_relaxed(&t));
}

#[test]
fn iterator() {
    let mut t = ShutdownTree::new();
    let swansong = Swansong::new(&mut t);
    let mut iter = swansong.interrupt(std::iter::repeat_with(|| 7u8)).guarded(&mut t);
    assert!(next(&mut iter, &t).is_some());
    assert!(next(&mut iter, &t).is_some());
    let mut c = swansong.shut_down(&mut t);
    assert!(next(&mut iter, &t).is_none());
    assert!(next(&mut iter, &t).is_none());
    iter.into_inner(&mut t);
    assert!(c.is_ready(&t));
}

#[test]
fn iterator_drop() {
    let mut t = ShutdownTree::new();
    let swansong = Swansong::new(&mut t);
    let mut iter = swansong.interrupt(std::iter::repeat_with(|| 7u8));
    assert!(next(&mut iter, &t).is_some());
    assert!(next(&mut iter, &t).is_some());
    swansong.release(&mut t);
    assert!(next(&mut iter, &t).is_none());
    assert!(next(&mut iter, &t).is_none());
}

#[test]
fn iterator_size_hint() {
    let iter = 0..10;
    assert_eq!(iter.size_hint(), (10, Some(10)));
    assert_eq!(interrupted_size_hint(iter.size_hint().1), (0, Some(10)));
}

#[test]
fn stop_guarded_counts_once() {
    let mut t = ShutdownTree::new();
    let s = Swansong::new(&mut t);
    let stop = Stop::new(&s, 3u8).guarded(&mut t);
    let stop = stop.guarded(&mut t);
    assert_eq!(s.guard_count(&t), 1);
    assert!(!stop.is_stopped(&t));
    s.shut_down(&mut t);
    assert!(stop.is_stopped(&t));
    stop.release(&mut t);
    assert_eq!(s.guard_count(&t), 0);
}

#[test]
fn resolved_completion_stays_ready() {
    let mut t = ShutdownTree::new();
    let s = Swansong::new(&mut t);
    let mut c = s.shut_down(&mut t);
    assert!(c.is_ready(&t));
    let g = s.guard(&mut t);
    assert!(s.state(&t).is_shutting_down());
    assert!(c.is_ready(&t));
    let mut late = s.completion(&mut t);
    assert!(!late.is_ready(&t));
    g.release(&mut t);
    assert!(late.is_ready(&t));
}

#[test]
fn guarded_into_inner_releases_its_guard() {
    let mut t = ShutdownTree::new();
    let s = Swansong::new(&mut t);
    let mut v = s.guarded(&mut t, Vec::new());
    v.get_mut().push(10);
    v.get_mut().push(5);
    assert_eq!(s.guard_count(&t), 1);
    assert_eq!(v.into_inner(&mut t), vec![10, 5]);
    assert_eq!(s.guard_count(&t), 0);
}

#[test]
fn interrupt_into_inner_releases_its_guard() {
    let mut t = ShutdownTree::new();
    let s = Swansong::new(&mut t);
    let i = s.interrupt(vec![1, 2]).guarded(&mut t);
    assert_eq!(s.guard_count(&t), 1);
    assert_eq!(i.into_inner(&mut t), vec![1, 2]);
    assert_eq!(s.guard_count(&t), 0);
}

#[test]
fn stream_size_hint() {
    let mut t = ShutdownTree::new();
    let swansong = Swansong::new(&mut t);
    let stream = futures_lite::stream::iter(0..10);
    assert_eq!(stream.size_hint(), (10, Some(10)));
    let interrupted = swansong.interrupt(futures_lite::stream::iter(0..10));
    assert_eq!(interrupted_size_hint(interrupted.get_ref().size_hint().1), (0, Some(10)));
}

#[test]
fn limits_are_observable() {
    let mut t = ShutdownTree::new();
    let s = Swansong::new(&mut t);
    let node = s.index();
    assert_eq!(t.handle_count(node), 1);
    let _c = s.completion(&mut t);
    assert_eq!(t.pin_count(node), 1);
    let _g = s.guard(&mut t);
    assert_eq!(t.local_guard_count(node), 1);
}

#[test]
fn subtree_members_in_arena_order() {
    let mut t = ShutdownTree::new();
    let root = Swansong::new(&mut t);
    let a = root.child(&mut t);
    let other = Swansong::new(&mut t);
    let b = a.child(&mut t);
    assert_eq!(t.subtree_members(root.index()), vec![root.index(), a.index(), b.index()]);
    assert_eq!(t.subtree_members(a.index()), vec![a.index(), b.index()]);
    assert_eq!(t.subtree_members(other.index()), vec![other.index()]);
}
