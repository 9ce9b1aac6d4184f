use process_bridge::bridge::{
    fan_out, fan_out_all, frame_for_server, messages_of, relay, retain_accepted, ClientMessage,
    ClientSet,
};
use process_bridge::framing::codec::{encode_frame, ProtocolError};
use process_bridge::framing::decoder::FrameDecoder;
use std::cell::RefCell;
use tokio::sync::mpsc::{unbounded_channel, UnboundedReceiver};

fn drain(rx: &mut UnboundedReceiver<String>) -> Vec<String> {
    let mut got = Vec::new();
    while let Ok(m) = rx.try_recv() {
        got.push(m);
    }
    got
}

#[test]
fn text_of_a_client_is_framed_for_the_server() {
    let body = "{\"jsonrpc\":\"2.0\",\"id\":1,\"method\":\"initialize\",\"params\":{}}";
    let bytes = frame_for_server(&ClientMessage::Text(body.to_string())).unwrap();
    let mut expected = b"Content-Length: 58\r\n\r\n".to_vec();
    expected.extend_from_slice(body.as_bytes());
    assert_eq!(bytes, expected);
}

#[test]
fn other_messages_of_a_client_are_not_forwarded() {
    assert_eq!(frame_for_server(&ClientMessage::Other), None);
}

#[test]
fn every_client_gets_every_message_in_order() {
    let mut set = ClientSet::new();
    let mut receivers = Vec::new();
    for _ in 0..4 {
        let (tx, rx) = unbounded_channel::<String>();
        set.connect(tx);
        receivers.push(rx);
    }
    assert_eq!(set.len(), 4);
    let messages = ["one", "two", "three", "{\"n\":4}"];
    for m in messages {
        assert_eq!(set.broadcast(m), vec![true; 4]);
    }
    assert_eq!(set.len(), 4);
    for rx in receivers.iter_mut() {
        assert_eq!(drain(rx), messages.iter().map(|m| m.to_string()).collect::<Vec<_>>());
    }
}

#[test]
fn a_client_that_is_gone_is_dropped_and_the_rest_go_on() {
    let mut set = ClientSet::new();
    let (tx_a, mut rx_a) = unbounded_channel::<String>();
    let (tx_b, rx_b) = unbounded_channel::<String>();
    let (tx_c, mut rx_c) = unbounded_channel::<String>();
    set.connect(tx_a);
    set.connect(tx_b);
    set.connect(tx_c);
    assert_eq!(set.broadcast("first"), vec![true, true, true]);
    drop(rx_b);
    assert_eq!(set.broadcast("second"), vec![true, false, true]);
    assert_eq!(set.len(), 2);
    assert_eq!(set.broadcast("third"), vec![true, true]);
    let all = vec!["first".to_string(), "second".to_string(), "third".to_string()];
    assert_eq!(drain(&mut rx_a), all);
    assert_eq!(drain(&mut rx_c), all);
}

#[test]
fn a_client_that_closed_its_queue_is_dropped() {
    let mut set = ClientSet::new();
    let (tx_a, mut rx_a) = unbounded_channel::<String>();
    let (tx_b, mut rx_b) = unbounded_channel::<String>();
    set.connect(tx_a);
    set.connect(tx_b);
    rx_a.close();
    assert_eq!(set.broadcast("m"), vec![false, true]);
    assert_eq!(set.len(), 1);
    assert_eq!(drain(&mut rx_a), Vec::<String>::new());
    assert_eq!(drain(&mut rx_b), vec!["m".to_string()]);
}

#[test]
fn a_client_gets_what_is_sent_after_it_connected() {
    let mut set = ClientSet::new();
    let (tx_a, mut rx_a) = unbounded_channel::<String>();
    set.connect(tx_a);
    set.broadcast("early");
    let (tx_b, mut rx_b) = unbounded_channel::<String>();
    set.connect(tx_b);
    set.broadcast("late");
    assert_eq!(drain(&mut rx_a), vec!["early".to_string(), "late".to_string()]);
    assert_eq!(drain(&mut rx_b), vec!["late".to_string()]);
}

#[test]
fn broadcast_to_nobody() {
    let mut set = ClientSet::new();
    assert_eq!(set.broadcast("m"), Vec::<bool>::new());
    assert_eq!(set.len(), 0);
}

#[test]
fn retain_keeps_the_accepted_in_order() {
    assert_eq!(retain_accepted(vec![1, 2, 3, 4, 5], &vec![true, false, true, false, true]), vec![1, 3, 5]);
    assert_eq!(retain_accepted(vec![1, 2, 3], &vec![true, true, true]), vec![1, 2, 3]);
    assert_eq!(retain_accepted(vec![1, 2, 3], &vec![false, false, false]), Vec::<i32>::new());
    assert_eq!(retain_accepted(Vec::<i32>::new(), &vec![]), Vec::<i32>::new());
    assert_eq!(retain_accepted(vec!["a", "b"], &vec![false, true]), vec!["b"]);
}

#[test]
fn retain_counts_a_missing_flag_as_refused() {
    assert_eq!(retain_accepted(vec![1, 2, 3], &vec![true]), vec![1]);
    assert_eq!(retain_accepted(vec![1, 2, 3], &vec![]), Vec::<i32>::new());
    assert_eq!(retain_accepted(vec![1, 2], &vec![false, true, true, true]), vec![2]);
}

#[test]
fn fan_out_offers_the_message_to_every_client_in_order() {
    let offers = RefCell::new(Vec::new());
    let (rest, flags) = fan_out(vec![10, 20, 30], "m", &|client: &i32, text: &str| {
        offers.borrow_mut().push((*client, text.to_string()));
        *client != 20
    });
    assert_eq!(
        offers.into_inner(),
        vec![(10, "m".to_string()), (20, "m".to_string()), (30, "m".to_string())]
    );
    assert_eq!(flags, vec![true, false, true]);
    assert_eq!(rest, vec![10, 30]);
}

#[test]
fn fan_out_over_several_messages_keeps_the_order_of_emission() {
    let offers = RefCell::new(Vec::new());
    let mut clients = vec!['a', 'b', 'c'];
    for message in ["1", "2", "3"] {
        let (rest, _) = fan_out(clients, message, &|client: &char, text: &str| {
            offers.borrow_mut().push(format!("{}{}", client, text));
            // b goes away when the second message is offered.
            !(*client == 'b' && text == "2")
        });
        clients = rest;
    }
    assert_eq!(clients, vec!['a', 'c']);
    assert_eq!(offers.into_inner(), vec!["a1", "b1", "c1", "a2", "b2", "c2", "a3", "c3"]);
}

#[test]
fn fan_out_to_nobody_offers_nothing() {
    let offers = RefCell::new(0);
    let (rest, flags) = fan_out(Vec::<u8>::new(), "m", &|_client: &u8, _text: &str| {
        *offers.borrow_mut() += 1;
        true
    });
    assert_eq!(offers.into_inner(), 0);
    assert!(rest.is_empty());
    assert!(flags.is_empty());
}

#[test]
fn fan_out_all_offers_every_message_to_who_is_left() {
    let offers = RefCell::new(Vec::new());
    let messages = vec!["1".to_string(), "2".to_string(), "3".to_string()];
    let (rest, flags) = fan_out_all(vec!['a', 'b', 'c'], &messages, &|client: &char, text: &str| {
        offers.borrow_mut().push(format!("{}{}", client, text));
        !(*client == 'b' && text == "2")
    });
    assert_eq!(rest, vec!['a', 'c']);
    assert_eq!(flags, vec![vec![true, true, true], vec![true, false, true], vec![true, true]]);
    assert_eq!(offers.into_inner(), vec!["a1", "b1", "c1", "a2", "b2", "c2", "a3", "c3"]);
}

#[test]
fn fan_out_all_of_no_message_changes_nothing() {
    let (rest, flags) = fan_out_all(vec![1, 2], &Vec::new(), &|_client: &i32, _text: &str| false);
    assert_eq!(rest, vec![1, 2]);
    assert!(flags.is_empty());
}

#[test]
fn messages_among_what_came_out() {
    let outcomes = vec![
        Ok("a".to_string()),
        Err(ProtocolError::MissingLength),
        Ok("b".to_string()),
        Err(ProtocolError::InvalidUtf8),
    ];
    assert_eq!(messages_of(&outcomes), vec!["a".to_string(), "b".to_string()]);
    assert_eq!(messages_of(&Vec::new()), Vec::<String>::new());
}

#[test]
fn relay_offers_the_bodies_of_the_frames_in_order() {
    let offers = RefCell::new(Vec::new());
    let mut stream = Vec::new();
    for body in ["one", "tw\u{f6}", "{\"three\":3}"] {
        stream.extend_from_slice(&encode_frame(body));
    }
    let mut decoder = FrameDecoder::new();
    let mut clients = vec![1, 2];
    for piece in stream.chunks(7) {
        let (rest, relayed) = relay(&mut decoder, clients, piece, &|client: &i32, text: &str| {
            offers.borrow_mut().push((*client, text.to_string()));
            true
        });
        assert_eq!(relayed.accepted.len(), relayed.outcomes.len());
        clients = rest;
    }
    assert_eq!(clients, vec![1, 2]);
    let expected: Vec<(i32, String)> = ["one", "tw\u{f6}", "{\"three\":3}"]
        .iter()
        .flat_map(|m| [(1, m.to_string()), (2, m.to_string())])
        .collect();
    assert_eq!(offers.into_inner(), expected);
}

#[test]
fn relay_reports_what_was_dropped_and_offers_the_rest() {
    let offers = RefCell::new(Vec::new());
    let mut stream = b"Content-Type: x\r\n\r\n".to_vec();
    stream.extend_from_slice(&encode_frame("next"));
    let mut decoder = FrameDecoder::new();
    let (rest, relayed) = relay(&mut decoder, vec!['a'], &stream, &|client: &char, text: &str| {
        offers.borrow_mut().push(format!("{}:{}", client, text));
        true
    });
    assert_eq!(rest, vec!['a']);
    assert_eq!(relayed.outcomes, vec![Err(ProtocolError::MissingLength), Ok("next".to_string())]);
    assert_eq!(relayed.accepted, vec![vec![true]]);
    assert_eq!(offers.into_inner(), vec!["a:next"]);
}

#[test]
fn pump_brings_every_message_to_every_queue_in_order() {
    let mut set = ClientSet::new();
    let (tx_a, mut rx_a) = unbounded_channel::<String>();
    let (tx_b, rx_b) = unbounded_channel::<String>();
    let (tx_c, mut rx_c) = unbounded_channel::<String>();
    set.connect(tx_a);
    set.connect(tx_b);
    set.connect(tx_c);
    let bodies = ["m1", "m2", "m3", "m4"];
    let mut decoder = FrameDecoder::new();
    let mut rx_b = Some(rx_b);
    for (i, body) in bodies.iter().enumerate() {
        if i == 2 {
            // b disconnects after the second message.
            rx_b = None;
        }
        let frame = encode_frame(body);
        let (head, tail) = frame.split_at(5);
        let first = set.pump(&mut decoder, head);
        assert!(first.outcomes.is_empty());
        let second = set.pump(&mut decoder, tail);
        assert_eq!(second.outcomes, vec![Ok(body.to_string())]);
    }
    assert!(rx_b.is_none());
    assert_eq!(set.len(), 2);
    let all: Vec<String> = bodies.iter().map(|b| b.to_string()).collect();
    assert_eq!(drain(&mut rx_a), all);
    assert_eq!(drain(&mut rx_c), all);
}

#[test]
fn pump_of_several_frames_in_one_piece() {
    let mut set = ClientSet::new();
    let (tx, mut rx) = unbounded_channel::<String>();
    set.connect(tx);
    let mut stream = Vec::new();
    for body in ["a", "b", "c"] {
        stream.extend_from_slice(&encode_frame(body));
    }
    let mut decoder = FrameDecoder::new();
    let relayed = set.pump(&mut decoder, &stream);
    assert_eq!(relayed.accepted, vec![vec![true], vec![true], vec![true]]);
    assert_eq!(drain(&mut rx), vec!["a".to_string(), "b".to_string(), "c".to_string()]);
}
