use cao_queue::bench::{BenchConsumer, ConsumerStep};
use cao_queue::commands::{CommandError, CommandResponse};
use cao_queue::message::OwnedMessage;
use cao_queue::MessageId;

fn msg(id: u64) -> OwnedMessage {
    OwnedMessage { id: MessageId(id), payload: vec![] }
}

#[test]
fn consumer_listens_then_drains() {
    // 10 messages, 2 consumers: the last ones are those past id 7
    let mut c = BenchConsumer::new(10, 2);
    assert_eq!(c.limit, 7);
    assert_eq!(c.next(), ConsumerStep::Listen);
    c.on_listen(&Ok(CommandResponse::Message(msg(3))));
    assert_eq!(c.next(), ConsumerStep::Listen);
    c.on_listen(&Err(CommandError::LostProducer));
    assert_eq!(c.next(), ConsumerStep::Pop);
    c.on_pop(&CommandResponse::Message(msg(5)));
    assert_eq!(c.next(), ConsumerStep::Pop);
    c.on_pop(&CommandResponse::Success);
    assert_eq!(c.next(), ConsumerStep::Close);
}

#[test]
fn consumer_stops_at_a_late_message() {
    let mut c = BenchConsumer::new(10, 2);
    c.on_listen(&Ok(CommandResponse::Message(msg(8))));
    assert_eq!(c.next(), ConsumerStep::Close);
    let mut d = BenchConsumer::new(10, 2);
    // a batch with a late message ends the draining, not the waiting
    d.on_listen(&Ok(CommandResponse::Messages(vec![msg(1), msg(9)])));
    assert_eq!(d.next(), ConsumerStep::Listen);
    d.on_listen(&Err(CommandError::LostProducer));
    assert_eq!(d.next(), ConsumerStep::Close);
}
