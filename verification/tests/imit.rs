use lib::{Imitator, Inner, Listener, MemoryMode, Network, Replay, SafeInner};

#[test]
fn imitator_streams_all_receive_events() {
    let mut net: Network<u32> = Network::new();
    let imitator = Imitator::new(&mut net);
    let s1 = imitator.stream();
    let s2 = imitator.stream();
    {
        let (inner, pegs) = s1.inner().lock(&mut net);
        let (_p, r) = inner.add(pegs, Listener::Callback(1));
        assert_eq!(r, Replay::Nothing);
    }
    {
        let (inner, pegs) = s2.inner().lock(&mut net);
        let (_p, _) = inner.add(pegs, Listener::Callback(2));
    }
    let source = Imitator::new(&mut net);
    let stream = source.stream();
    let _sub = imitator.imitate(&mut net, &stream);
    assert_eq!(Inner::update_and_imitate(&mut net, stream.inner(), Some(42)), vec![1, 2]);
    // the end reaches the imitator too
    assert_eq!(Inner::update_and_imitate(&mut net, stream.inner(), None), vec![1, 2]);
    assert_eq!(Inner::update_and_imitate(&mut net, s1.inner(), Some(1)), Vec::<u64>::new());
}

#[test]
fn own_callbacks_come_before_imitators() {
    let mut net: Network<u32> = Network::new();
    let source = SafeInner::new(&mut net, MemoryMode::KeepUntilEnd, None);
    let source_stream_owner = Imitator::new(&mut net);
    let first = Imitator::new(&mut net);
    let second = Imitator::new(&mut net);
    let s_first = first.stream();
    let s_second = second.stream();
    let src = source_stream_owner.stream();
    {
        let (inner, pegs) = s_first.inner().lock(&mut net);
        inner.add(pegs, Listener::Callback(10));
    }
    {
        let (inner, pegs) = s_second.inner().lock(&mut net);
        inner.add(pegs, Listener::Callback(20));
    }
    let _a = first.imitate(&mut net, &src);
    {
        let (inner, pegs) = src.inner().lock(&mut net);
        inner.add(pegs, Listener::Callback(1));
    }
    let _b = second.imitate(&mut net, &src);
    {
        let (inner, pegs) = src.inner().lock(&mut net);
        inner.add(pegs, Listener::Callback(2));
    }
    assert_eq!(Inner::update_and_imitate(&mut net, src.inner(), Some(5)), vec![1, 2, 10, 20]);
    // an unrelated stream with memory is untouched
    let (inner, _) = source.lock(&mut net);
    assert_eq!(inner.peek_memory(), &None);
}

#[test]
fn imitation_stops_on_unsubscribe() {
    let mut net: Network<u32> = Network::new();
    let imitator = Imitator::new(&mut net);
    let s = imitator.stream();
    {
        let (inner, pegs) = s.inner().lock(&mut net);
        inner.add(pegs, Listener::Callback(3));
    }
    let source = Imitator::new(&mut net);
    let src = source.stream();
    let sub = imitator.imitate(&mut net, &src);
    assert_eq!(Inner::update_and_imitate(&mut net, src.inner(), Some(1)), vec![3]);
    let copy = sub.share(net.pegs());
    copy.unsubscribe(net.pegs());
    assert_eq!(Inner::update_and_imitate(&mut net, src.inner(), Some(2)), Vec::<u64>::new());
    sub.unsubscribe(net.pegs());
    assert_eq!(Inner::update_and_imitate(&mut net, src.inner(), Some(3)), Vec::<u64>::new());
}

#[test]
fn imitation_outlives_released_subscription() {
    let mut net: Network<u32> = Network::new();
    let imitator = Imitator::new(&mut net);
    let s = imitator.stream();
    {
        let (inner, pegs) = s.inner().lock(&mut net);
        inner.add(pegs, Listener::Callback(3));
    }
    let source = Imitator::new(&mut net);
    let src = source.stream();
    let sub = imitator.imitate(&mut net, &src);
    let copy = sub.share(net.pegs());
    sub.release(net.pegs());
    copy.release(net.pegs());
    assert_eq!(Inner::update_and_imitate(&mut net, src.inner(), Some(1)), vec![3]);
    assert_eq!(Inner::update_and_imitate(&mut net, src.inner(), None), vec![3]);
    assert_eq!(Inner::update_and_imitate(&mut net, s.inner(), Some(4)), Vec::<u64>::new());
}

#[test]
fn imitating_an_ended_stream_does_nothing() {
    let mut net: Network<u32> = Network::new();
    let imitator = Imitator::new(&mut net);
    let s = imitator.stream();
    {
        let (inner, pegs) = s.inner().lock(&mut net);
        inner.add(pegs, Listener::Callback(3));
    }
    let source = Imitator::new(&mut net);
    let src = source.stream();
    assert_eq!(Inner::update_and_imitate(&mut net, src.inner(), None), Vec::<u64>::new());
    let _sub = imitator.imitate(&mut net, &src);
    assert_eq!(Inner::update_and_imitate(&mut net, src.inner(), Some(1)), Vec::<u64>::new());
    assert_eq!(Inner::update_and_imitate(&mut net, s.inner(), Some(2)), vec![3]);
}

#[test]
fn cycle_of_imitations_takes_each_event_once() {
    let mut net: Network<u32> = Network::new();
    let a = Imitator::new(&mut net);
    let b = Imitator::new(&mut net);
    let sa = a.stream();
    let sb = b.stream();
    {
        let (inner, pegs) = sa.inner().lock(&mut net);
        inner.add(pegs, Listener::Callback(1));
    }
    {
        let (inner, pegs) = sb.inner().lock(&mut net);
        inner.add(pegs, Listener::Callback(2));
    }
    let _x = a.imitate(&mut net, &sb);
    let _y = b.imitate(&mut net, &sa);
    assert_eq!(Inner::update_and_imitate(&mut net, sa.inner(), Some(9)), vec![1, 2]);
}

#[test]
fn stream_handles_share_the_index() {
    let mut net: Network<u32> = Network::new();
    let _first = Imitator::new(&mut net);
    let second = Imitator::new(&mut net);
    assert_eq!(second.stream().inner().index(), 1);
    let h = second.stream().inner().clone();
    assert_eq!(h.index(), 1);
}

#[test]
fn two_imitations_hand_the_event_twice() {
    let mut net: Network<u32> = Network::new();
    let root = SafeInner::new(&mut net, MemoryMode::NoMemory, None);
    let target = SafeInner::new(&mut net, MemoryMode::NoMemory, None);
    {
        let (inner, pegs) = target.lock(&mut net);
        inner.add(pegs, Listener::Callback(7));
    }
    {
        let (inner, pegs) = root.lock(&mut net);
        inner.add(pegs, Listener::Imitate(target.index()));
        inner.add(pegs, Listener::Callback(1));
        inner.add(pegs, Listener::Imitate(target.index()));
    }
    assert_eq!(Inner::update_and_imitate(&mut net, &root, Some(3)), vec![1, 7, 7]);
}

#[test]
fn stream_reached_through_two_streams_takes_the_event_from_each() {
    let mut net: Network<u32> = Network::new();
    let root = SafeInner::new(&mut net, MemoryMode::NoMemory, None);
    let left = SafeInner::new(&mut net, MemoryMode::NoMemory, None);
    let right = SafeInner::new(&mut net, MemoryMode::NoMemory, None);
    let bottom = SafeInner::new(&mut net, MemoryMode::NoMemory, None);
    {
        let (inner, pegs) = bottom.lock(&mut net);
        inner.add(pegs, Listener::Callback(9));
    }
    {
        let (inner, pegs) = left.lock(&mut net);
        inner.add(pegs, Listener::Callback(2));
        inner.add(pegs, Listener::Imitate(bottom.index()));
    }
    {
        let (inner, pegs) = right.lock(&mut net);
        inner.add(pegs, Listener::Callback(3));
        inner.add(pegs, Listener::Imitate(bottom.index()));
    }
    {
        let (inner, pegs) = root.lock(&mut net);
        inner.add(pegs, Listener::Imitate(left.index()));
        inner.add(pegs, Listener::Imitate(right.index()));
    }
    assert_eq!(Inner::update_and_imitate(&mut net, &root, Some(1)), vec![2, 9, 3, 9]);
    // the end ends every stream on the way; the second imitation of the ended
    // bottom stream hands it nothing
    assert_eq!(Inner::update_and_imitate(&mut net, &root, None), vec![2, 9, 3]);
}

#[test]
fn self_imitation_is_cut() {
    let mut net: Network<u32> = Network::new();
    let root = SafeInner::new(&mut net, MemoryMode::NoMemory, None);
    {
        let (inner, pegs) = root.lock(&mut net);
        inner.add(pegs, Listener::Callback(4));
        inner.add(pegs, Listener::Imitate(root.index()));
    }
    assert_eq!(Inner::update_and_imitate(&mut net, &root, Some(1)), vec![4]);
}
