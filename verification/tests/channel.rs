use canal::mpmc::{Canal, Failure};

#[test]
fn test_send_recv() {
    let mut canal = Canal::new(20);

    for i in 0..20 {
        assert!(canal.send(i as u8).is_ok());
    }

    for _i in 0..20 {
        let popped = canal.try_recv().unwrap();
        let mut found = false;
        for x in 0..20 {
            if popped == x {
                found = true
            }
        }
        assert!(found);
    }

    canal.drop_port();
    canal.drop_chan();
}

#[test]
fn test_send_full() {
    let mut canal = Canal::new(2);
    assert!(canal.send(1 as u8).is_ok());
    assert!(canal.send(2 as u8).is_ok());
    assert!(canal.send(3 as u8).is_err());
    canal.drop_port();
    canal.drop_chan();
}

#[test]
fn test_send_no_receiver() {
    let mut canal = Canal::new(4);
    canal.drop_port();
    assert_eq!(canal.receiver_count(), 0);
    // With no receiver left, a send always fails and hands the value back
    // unchanged.
    assert_eq!(canal.send(7u8), Err(7));
    assert_eq!(canal.send(7u8), Err(7));
    canal.drop_chan();
}

#[test]
fn test_try_recv_empty() {
    let mut canal = Canal::<u8>::new(4);
    assert_eq!(canal.try_recv(), Err(Failure::Empty));
    // `Empty` is transient: a send makes the item receivable.
    assert_eq!(canal.send(3), Ok(()));
    assert_eq!(canal.try_recv(), Ok(3));
    canal.drop_port();
    canal.drop_chan();
}

#[test]
fn test_drop_sender_disconnects() {
    // Empty channel: the drop of the last sender turns receives into
    // `Disconnected` at once.
    let mut canal = Canal::<u8>::new(4);
    canal.drop_chan();
    assert_eq!(canal.try_recv(), Err(Failure::Disconnected));

    // Buffered channel: the last item is delivered first, then
    // `Disconnected`.
    let mut canal = Canal::<u8>::new(4);
    assert_eq!(canal.send(5), Ok(()));
    canal.drop_chan();
    assert_eq!(canal.try_recv(), Ok(5));
    assert_eq!(canal.try_recv(), Err(Failure::Disconnected));
}

#[test]
fn test_disconnect_drains_in_order() {
    let mut canal = Canal::<u8>::new(8);
    assert_eq!(canal.send(1), Ok(()));
    assert_eq!(canal.send(2), Ok(()));
    assert_eq!(canal.send(3), Ok(()));
    canal.drop_chan();
    // The residue comes out in order; after that, `Disconnected` is
    // stable.
    assert_eq!(canal.try_recv(), Ok(1));
    assert_eq!(canal.try_recv(), Ok(2));
    assert_eq!(canal.try_recv(), Ok(3));
    assert_eq!(canal.try_recv(), Err(Failure::Disconnected));
    assert_eq!(canal.try_recv(), Err(Failure::Disconnected));
    // And sending on the disconnected channel fails.
    assert_eq!(canal.send(4), Err(4));
}

#[test]
fn test_clone_counts() {
    let mut canal = Canal::<u8>::new(4);
    assert_eq!(canal.sender_count(), 1);
    assert_eq!(canal.receiver_count(), 1);
    canal.clone_chan();
    canal.clone_port();
    assert_eq!(canal.sender_count(), 2);
    assert_eq!(canal.receiver_count(), 2);
    canal.drop_chan();
    canal.drop_port();
    // One handle of each kind is left: the channel still works.
    assert_eq!(canal.send(9), Ok(()));
    assert_eq!(canal.try_recv(), Ok(9));
    canal.drop_port();
    canal.drop_chan();
}

#[test]
fn test_drop_port_drains() {
    let mut canal = Canal::<u8>::new(4);
    assert_eq!(canal.send(1), Ok(()));
    assert_eq!(canal.send(2), Ok(()));
    // The drop of the last receiver disconnects and drains the channel.
    canal.drop_port();
    assert_eq!(canal.send(3), Err(3));
    canal.drop_chan();
}

#[test]
fn test_channel_capacity_rounding() {
    assert_eq!(Canal::<u8>::new(0).capacity(), 2);
    assert_eq!(Canal::<u8>::new(5).capacity(), 8);
    assert_eq!(Canal::<u8>::new(16).capacity(), 16);
}
