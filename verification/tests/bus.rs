use hourglass::bus::{EventBus, EventBusError, Publisher, Subscriber};
use std::sync::Arc;

#[test]
fn event_bus_create_channel() {
    let mut event_bus = EventBus::<String>::new();

    assert_eq!(event_bus.add_channel("channel1"), Ok(()));
    assert_eq!(
        event_bus.add_channel("channel1"),
        Err(EventBusError::ChannelCreationFailed)
    );
}

#[test]
fn event_bus_remove_channel() {
    let mut event_bus = EventBus::<String>::new();

    assert_eq!(event_bus.add_channel("channel1"), Ok(()));
    assert_eq!(event_bus.remove_channel("channel1"), Ok(()));
    assert_eq!(
        event_bus.remove_channel("channel1"),
        Err(EventBusError::ChannelRemovalFailed)
    );
}

#[test]
fn publish_and_subscribe() {
    let mut event_bus = EventBus::<String>::new();
    event_bus.add_channel("channel1").unwrap();
    let event_bus = Arc::new(event_bus);

    let publisher = Publisher::new(event_bus.clone(), "channel1".to_string());
    assert_eq!(
        publisher.publish("topic1".to_string(), "Hello, world!".to_string()),
        Ok(())
    );

    let subscriber = Subscriber::new(event_bus.clone(), vec!["channel1".to_string()]);
    let receivers = subscriber.subscribe().unwrap();

    let received_messages: Vec<(String, String)> =
        vec![("topic1".to_string(), "Hello, world!".to_string())];
    assert_eq!(receivers[0].recv_blocking().unwrap(), received_messages[0]);
}

#[test]
fn publish_to_missing_channel_fails() {
    let event_bus = Arc::new(EventBus::<String>::new());
    let publisher = Publisher::new(event_bus, "nowhere".to_string());
    assert_eq!(
        publisher.publish("topic".to_string(), "payload".to_string()),
        Err(EventBusError::ChannelRemovalFailed)
    );
}

#[test]
fn subscribe_to_missing_channel_fails() {
    let mut event_bus = EventBus::<String>::new();
    event_bus.add_channel("present").unwrap();
    let event_bus = Arc::new(event_bus);

    let subscriber = Subscriber::new(
        event_bus,
        vec!["present".to_string(), "absent".to_string()],
    );
    assert_eq!(
        subscriber.subscribe().err(),
        Some(EventBusError::ChannelRemovalFailed)
    );
}

#[test]
fn try_next_message_polls_round_robin() {
    let mut event_bus = EventBus::<u32>::new();
    event_bus.add_channel("a").unwrap();
    event_bus.add_channel("b").unwrap();
    let bus = Arc::new(event_bus);

    let to_a = Publisher::new(bus.clone(), "a".to_string());
    let to_b = Publisher::new(bus.clone(), "b".to_string());
    assert_eq!(to_a.publish("t".to_string(), 1), Ok(()));
    assert_eq!(to_b.publish("t".to_string(), 2), Ok(()));

    let mut subscriber = Subscriber::new(bus, vec!["a".to_string(), "b".to_string()]);
    assert_eq!(subscriber.try_next_message(), Some(("t".to_string(), 1)));
    assert_eq!(subscriber.try_next_message(), Some(("t".to_string(), 2)));
    assert_eq!(subscriber.try_next_message(), None);
}
