use cao_queue::client::{listen_timed_out, QueueClient, SpmcClient, Step};
use cao_queue::commands::{Command, CommandError, CommandResponse, QueueOptions};
use cao_queue::exchange::{round_up_to_pow_2, SpmcExchange, SpmcQueue};
use cao_queue::{MessageId, Role};

fn setup_client() -> (SpmcClient, SpmcExchange) {
    (SpmcClient::new(), SpmcExchange::new())
}

fn done(step: Step) -> Result<CommandResponse, CommandError> {
    match step {
        Step::Done(r) => r,
        Step::Listen { .. } => panic!("expected an answer"),
    }
}

fn error_of(res: Result<CommandResponse, CommandError>) -> CommandError {
    match res {
        Err(err) => err,
        Ok(_) => panic!("expected an error"),
    }
}

fn clients_of(exchange: &SpmcExchange, name: &str) -> u64 {
    let i = exchange.find(&name.to_string()).expect("expected to find the queue");
    exchange.queues[i].clients
}

#[test]
fn tests_fails_if_queue_not_exists() {
    let (mut client, mut exchange) = setup_client();

    let cmd = Command::ActiveQueue {
        role: Role::NoRole,
        name: "asd".to_owned(),
        create: None, // <-- important
    };

    let res = done(client.handle_command(&mut exchange, cmd));
    assert!(matches!(error_of(res), CommandError::QueueNotFound));
}

#[test]
fn tests_creates_the_q_if_not_exists() {
    let (mut client, mut exchange) = setup_client();

    let cmd = Command::ActiveQueue {
        role: Role::NoRole,
        name: "asd".to_owned(),
        create: Some(QueueOptions { capacity: 8000 }),
    };

    let res = done(client.handle_command(&mut exchange, cmd));
    assert!(matches!(res.unwrap(), CommandResponse::Success));

    assert!(exchange.contains_key(&"asd".to_string()));
}

#[test]
fn fails_if_already_has_producer() {
    let (mut client, mut exchange) = setup_client();

    let cmd = Command::ActiveQueue {
        role: Role::Producer,
        name: "asd".to_owned(),
        create: Some(QueueOptions { capacity: 128 }),
    };

    {
        let mut q = SpmcQueue::new(128, "asd".into());
        q.has_producer = true;
        exchange.queues.push(q);
    }

    let res = done(client.handle_command(&mut exchange, cmd));
    assert!(matches!(error_of(res), CommandError::HasProducer));
}

#[test]
fn tests_registers_client() {
    let (mut client, mut exchange) = setup_client();

    let cmd = Command::ActiveQueue {
        role: Role::Producer,
        name: "asd".to_owned(),
        create: Some(QueueOptions { capacity: 8000 }),
    };

    let res = done(client.handle_command(&mut exchange, cmd));
    assert!(matches!(res.unwrap(), CommandResponse::Success));

    assert!(clients_of(&exchange, "asd") == 1);
}

#[test]
fn change_q_cleans_up() {
    let mut exchange = SpmcExchange::new();
    let mut client = QueueClient::Spmc(SpmcClient::new());
    done(client.handle_command(
        &mut exchange,
        Command::ActiveQueue {
            role: Role::Producer,
            name: "boi".to_owned(),
            create: Some(QueueOptions { capacity: 8000 }),
        },
    ))
    .unwrap();

    assert_eq!(clients_of(&exchange, "boi"), 1);

    done(client.handle_command(
        &mut exchange,
        Command::ActiveQueue {
            role: Role::Producer,
            name: "boi2".to_owned(),
            create: Some(QueueOptions { capacity: 8000 }),
        },
    ))
    .unwrap();

    // "boi" has no client left, and no message: it is collected
    assert!(!exchange.contains_key(&"boi".to_string()));
    let QueueClient::Spmc(c) = &client;
    assert_eq!(c.queue.as_deref(), Some("boi2"));
    assert_eq!(clients_of(&exchange, "boi2"), 1);
}

#[test]
fn left_queue_with_messages_keeps_zero_clients() {
    let mut exchange = SpmcExchange::new();
    let mut client = QueueClient::Spmc(SpmcClient::new());
    let join = |name: &str| Command::ActiveQueue {
        role: Role::Producer,
        name: name.to_owned(),
        create: Some(QueueOptions { capacity: 8000 }),
    };
    done(client.handle_command(&mut exchange, join("boi"))).unwrap();
    done(client.handle_command(&mut exchange, Command::PushMsg(b"hi".to_vec()))).unwrap();
    done(client.handle_command(&mut exchange, join("boi2"))).unwrap();
    assert_eq!(clients_of(&exchange, "boi"), 0);
    assert_eq!(clients_of(&exchange, "boi2"), 1);
    // the producer role on "boi" was given up when the client left
    let i = exchange.find(&"boi".to_string()).unwrap();
    assert!(!exchange.queues[i].has_producer);
}

#[test]
fn clear_fails_if_not_producer() {
    let (mut client, mut exchange) = setup_client();
    client.role = Role::Consumer;
    let cmd = Command::ClearQueue;

    let err = error_of(done(client.handle_command(&mut exchange, cmd)));
    assert!(matches!(err, CommandError::NotProducer));
}

#[test]
fn empty_unused_queue_is_collected() {
    let (mut client, mut exchange) = setup_client();
    done(client.handle_command(
        &mut exchange,
        Command::ActiveQueue { role: Role::Consumer, name: "a".into(), create: Some(QueueOptions { capacity: 4 }) },
    ))
    .unwrap();
    done(client.handle_command(
        &mut exchange,
        Command::ActiveQueue { role: Role::Consumer, name: "b".into(), create: Some(QueueOptions { capacity: 4 }) },
    ))
    .unwrap();
    assert!(!exchange.contains_key(&"a".to_string()));
    client.cleanup(&mut exchange);
    assert!(!exchange.contains_key(&"b".to_string()));
    assert!(client.queue.is_none());
}

#[test]
fn producer_pushes_and_consumer_pops_in_order() {
    let mut exchange = SpmcExchange::new();
    let mut producer = SpmcClient::new();
    let mut consumer = SpmcClient::new();
    done(producer.handle_command(
        &mut exchange,
        Command::ActiveQueue { role: Role::Producer, name: "q".into(), create: Some(QueueOptions { capacity: 16 }) },
    ))
    .unwrap();
    done(consumer.handle_command(
        &mut exchange,
        Command::ActiveQueue { role: Role::Consumer, name: "q".into(), create: None },
    ))
    .unwrap();
    for i in 0..3u64 {
        let r = done(producer.handle_command(&mut exchange, Command::PushMsg(vec![i as u8])));
        assert!(matches!(r, Ok(CommandResponse::MessageId(MessageId(id))) if id == i));
    }
    // a consumer cannot push, a producer cannot pop
    assert!(matches!(
        done(consumer.handle_command(&mut exchange, Command::PushMsg(vec![]))),
        Err(CommandError::NotProducer)
    ));
    assert!(matches!(
        done(producer.handle_command(&mut exchange, Command::PopMsg)),
        Err(CommandError::NotConsumer)
    ));
    for i in 0..3u64 {
        match done(consumer.handle_command(&mut exchange, Command::PopMsg)) {
            Ok(CommandResponse::Message(m)) => {
                assert_eq!(m.id, MessageId(i));
                assert_eq!(m.payload, vec![i as u8]);
            }
            _ => panic!("expected a message"),
        }
    }
    assert!(matches!(done(consumer.handle_command(&mut exchange, Command::PopMsg)), Ok(CommandResponse::Success)));
}

#[test]
fn second_producer_is_refused_until_the_first_steps_down() {
    let mut exchange = SpmcExchange::new();
    let mut a = SpmcClient::new();
    let mut b = SpmcClient::new();
    let join = |role| Command::ActiveQueue { role, name: "q".into(), create: Some(QueueOptions { capacity: 16 }) };
    done(a.handle_command(&mut exchange, join(Role::Producer))).unwrap();
    assert!(matches!(done(b.handle_command(&mut exchange, join(Role::Producer))), Err(CommandError::HasProducer)));
    done(a.handle_command(&mut exchange, Command::ChangeRole(Role::Consumer))).unwrap();
    done(b.handle_command(&mut exchange, join(Role::Producer))).unwrap();
}

#[test]
fn listen_waits_and_loses_producer() {
    let mut exchange = SpmcExchange::new();
    let mut producer = SpmcClient::new();
    let mut consumer = SpmcClient::new();
    done(producer.handle_command(
        &mut exchange,
        Command::ActiveQueue { role: Role::Producer, name: "q".into(), create: Some(QueueOptions { capacity: 16 }) },
    ))
    .unwrap();
    done(consumer.handle_command(
        &mut exchange,
        Command::ActiveQueue { role: Role::Consumer, name: "q".into(), create: None },
    ))
    .unwrap();
    match consumer.handle_command(&mut exchange, Command::ListenForMsg { timeout_ms: Some(5) }) {
        Step::Listen { timeout_ms } => assert_eq!(timeout_ms, Some(5)),
        Step::Done(_) => panic!("expected to wait"),
    }
    assert!(consumer.listen_poll(&mut exchange).is_none());
    done(producer.handle_command(&mut exchange, Command::PushMsg(b"x".to_vec()))).unwrap();
    assert!(matches!(consumer.listen_poll(&mut exchange), Some(Ok(CommandResponse::Message(_)))));
    producer.cleanup(&mut exchange);
    assert!(matches!(consumer.listen_poll(&mut exchange), Some(Err(CommandError::LostProducer))));
    // a client that is producer too would block
    assert!(matches!(
        done(producer.handle_command(&mut exchange, Command::ListenForMsg { timeout_ms: None })),
        Err(CommandError::NotConsumer)
    ));
    assert!(!listen_timed_out(4_999_999, Some(5)));
    assert!(listen_timed_out(5_000_000, Some(5)));
    assert!(!listen_timed_out(u128::MAX, None));
}

#[test]
fn responses_are_stored_and_consumed() {
    let (mut client, mut exchange) = setup_client();
    done(client.handle_command(
        &mut exchange,
        Command::ActiveQueue { role: Role::ProdCon, name: "q".into(), create: Some(QueueOptions { capacity: 16 }) },
    ))
    .unwrap();
    done(client.handle_command(&mut exchange, Command::MsgResponse { id: MessageId(3), payload: b"a".to_vec() })).unwrap();
    done(client.handle_command(&mut exchange, Command::MsgResponse { id: MessageId(4), payload: b"b".to_vec() })).unwrap();
    done(client.handle_command(&mut exchange, Command::MsgResponse { id: MessageId(3), payload: b"c".to_vec() })).unwrap();
    match done(client.handle_command(&mut exchange, Command::GetSingleResponse(MessageId(3)))) {
        Ok(CommandResponse::Message(m)) => assert_eq!(m.payload, b"c".to_vec()),
        _ => panic!("expected a response"),
    }
    match done(client.handle_command(&mut exchange, Command::ConsumeResponses)) {
        Ok(CommandResponse::Messages(ms)) => {
            assert_eq!(ms.len(), 2);
            assert_eq!((ms[0].id, ms[0].payload.clone()), (MessageId(3), b"c".to_vec()));
            assert_eq!((ms[1].id, ms[1].payload.clone()), (MessageId(4), b"b".to_vec()));
        }
        _ => panic!("expected the responses"),
    }
    assert!(matches!(
        done(client.handle_command(&mut exchange, Command::GetSingleResponse(MessageId(3)))),
        Ok(CommandResponse::Success)
    ));
    assert!(matches!(
        done(client.handle_command(&mut exchange, Command::ListenForMsg { timeout_ms: None })),
        Err(CommandError::WouldBlock)
    ));
}

#[test]
fn round_up_gives_the_next_power_of_two() {
    assert_eq!(round_up_to_pow_2(1), 1);
    assert_eq!(round_up_to_pow_2(3), 4);
    assert_eq!(round_up_to_pow_2(32000), 32768);
    assert_eq!(round_up_to_pow_2(1 << 40), 1 << 40);
    assert_eq!(round_up_to_pow_2((1 << 40) + 1), 1 << 41);
    let q = SpmcQueue::new(32000, "n".into());
    assert!(q.queue.is_empty());
}

#[test]
fn change_role_to_producer_needs_a_free_slot() {
    let mut exchange = SpmcExchange::new();
    let mut a = SpmcClient::new();
    let mut b = SpmcClient::new();
    let join = |role| Command::ActiveQueue { role, name: "q".into(), create: Some(QueueOptions { capacity: 16 }) };
    done(a.handle_command(&mut exchange, join(Role::Producer))).unwrap();
    done(b.handle_command(&mut exchange, join(Role::Consumer))).unwrap();
    assert!(matches!(
        done(b.handle_command(&mut exchange, Command::ChangeRole(Role::ProdCon))),
        Err(CommandError::HasProducer)
    ));
    assert_eq!(b.role, Role::Consumer);
    assert!(matches!(
        done(b.handle_command(&mut exchange, Command::PushMsg(b"x".to_vec()))),
        Err(CommandError::NotProducer)
    ));
    done(a.handle_command(&mut exchange, Command::ChangeRole(Role::Consumer))).unwrap();
    done(b.handle_command(&mut exchange, Command::ChangeRole(Role::Producer))).unwrap();
    assert_eq!(b.role, Role::Producer);
    let i = exchange.find(&"q".to_string()).unwrap();
    assert!(exchange.queues[i].has_producer);
    // the slot is taken again: `a` cannot take it back
    assert!(matches!(
        done(a.handle_command(&mut exchange, Command::ChangeRole(Role::Producer))),
        Err(CommandError::HasProducer)
    ));
}

#[test]
fn refused_producer_stays_counted() {
    let mut exchange = SpmcExchange::new();
    let mut a = SpmcClient::new();
    let mut b = SpmcClient::new();
    let join = |role| Command::ActiveQueue { role, name: "q".into(), create: Some(QueueOptions { capacity: 16 }) };
    done(a.handle_command(&mut exchange, join(Role::Producer))).unwrap();
    assert_eq!(clients_of(&exchange, "q"), 1);
    assert!(matches!(done(b.handle_command(&mut exchange, join(Role::Producer))), Err(CommandError::HasProducer)));
    // the refused client was counted in before the producer slot was checked, and stays counted
    assert_eq!(clients_of(&exchange, "q"), 2);
    assert!(b.queue.is_none());
}

#[test]
fn created_queue_takes_its_capacity_from_the_options() {
    let (mut client, mut exchange) = setup_client();
    let cmd = Command::ActiveQueue { role: Role::Producer, name: "small".into(), create: Some(QueueOptions { capacity: 8 }) };
    done(client.handle_command(&mut exchange, cmd)).unwrap();
    // room for 8 rounds up to 8 slots, of which one stays free
    for i in 0..7u64 {
        assert!(matches!(
            done(client.handle_command(&mut exchange, Command::PushMsg(vec![1]))),
            Ok(CommandResponse::MessageId(MessageId(id))) if id == i
        ));
    }
    assert!(matches!(
        done(client.handle_command(&mut exchange, Command::PushMsg(vec![1]))),
        Err(CommandError::QueueError(_))
    ));
    let mut other = SpmcClient::new();
    let cmd = Command::ActiveQueue { role: Role::Producer, name: "odd".into(), create: Some(QueueOptions { capacity: 5 }) };
    done(other.handle_command(&mut exchange, cmd)).unwrap();
    for _ in 0..7 {
        done(other.handle_command(&mut exchange, Command::PushMsg(vec![2]))).unwrap();
    }
    assert!(done(other.handle_command(&mut exchange, Command::PushMsg(vec![2]))).is_err());
}
