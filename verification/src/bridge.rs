//! The two directions of a language server's bridge: what a client sends is
//! framed for the server, and what the server sends goes to every client.

use crate::framing::codec::{encode_frame, frame, ProtocolError};
use crate::framing::decoder::{
    delivered, frames, idle, lemma_run_frames, run, texts, FrameDecoder, Outcome,
};
use tokio::sync::mpsc::UnboundedSender;
use vstd::prelude::*;
use vstd::utf8::encode_utf8;

verus! {

/// The sending half of a client's queue, as tokio has it.
#[verifier::external_type_specification]
#[verifier::external_body]
#[verifier::reject_recursive_types(T)]
pub struct ExUnboundedSender<T>(UnboundedSender<T>);

/// `UnboundedSender::send` of tokio: offers `message` to the client's queue
/// and says whether the queue took it. It does not take it once the
/// receiving half is closed or gone, which nothing here can foresee.
#[verifier::external_body]
fn offer(client: &UnboundedSender<String>, message: &str) -> (accepted: bool) {
    client.send(message.to_owned()).is_ok()
}

/// What a client sent.
#[derive(Debug)]
pub enum ClientMessage {
    /// A text message: one whole body.
    Text(String),
    /// Anything else: binary data, a ping, a close.
    Other,
}

/// What goes to the server for a message of a client: the frame of a text,
/// and nothing for anything else.
pub fn frame_for_server(message: &ClientMessage) -> (bytes: Option<Vec<u8>>)
    ensures
        match *message {
            ClientMessage::Text(text) => bytes matches Some(b) && b@ == frame(encode_utf8(text@)),
            ClientMessage::Other => bytes is None,
        },
{
    match message {
        ClientMessage::Text(text) => Some(encode_frame(text.as_str())),
        ClientMessage::Other => None,
    }
}

/// Whether the client at `i` took the message. A client without a flag
/// counts as one that did not.
pub open spec fn took(accepted: Seq<bool>, i: int) -> bool {
    0 <= i < accepted.len() && accepted[i]
}

/// Those of the first `n` clients that took the message, in their order.
pub open spec fn kept_of<C>(clients: Seq<C>, accepted: Seq<bool>, n: int) -> Seq<C>
    decreases n,
{
    if n <= 0 || n > clients.len() {
        Seq::empty()
    } else if took(accepted, n - 1) {
        kept_of(clients, accepted, n - 1).push(clients[n - 1])
    } else {
        kept_of(clients, accepted, n - 1)
    }
}

/// The clients that took the message, in their order.
pub open spec fn kept<C>(clients: Seq<C>, accepted: Seq<bool>) -> Seq<C> {
    kept_of(clients, accepted, clients.len() as int)
}

/// Keeps the clients that took the message, in their order.
pub fn retain_accepted<C>(clients: Vec<C>, accepted: &Vec<bool>) -> (rest: Vec<C>)
    ensures
        rest@ == kept(clients@, accepted@),
{
    let ghost all = clients@;
    let total: usize = clients.len();
    let mut clients = clients;
    let mut turned: Vec<C> = Vec::new();
    while clients.len() > 0
        invariant
            total == all.len(),
            clients@.len() + turned@.len() == all.len(),
            clients@ == all.take(clients@.len() as int),
            forall|j: int| 0 <= j < turned@.len() ==> turned@[j] == all[all.len() - 1 - j],
        decreases clients@.len(),
    {
        match clients.pop() {
            Some(client) => {
                turned.push(client);
                proof {
                    assert(clients@ =~= all.take(clients@.len() as int));
                }
            },
            None => {},
        }
    }
    let mut rest: Vec<C> = Vec::new();
    let mut i: usize = 0;
    while turned.len() > 0
        invariant
            total == all.len(),
            i + turned@.len() == all.len(),
            forall|j: int| 0 <= j < turned@.len() ==> turned@[j] == all[all.len() - 1 - j],
            rest@ == kept_of(all, accepted@, i as int),
        decreases turned@.len(),
    {
        match turned.pop() {
            Some(client) => {
                assert(client == all[i as int]);
                if i < accepted.len() && accepted[i] {
                    rest.push(client);
                }
            },
            None => {},
        }
        i = i + 1;
    }
    rest
}

/// Offers `message` to each of `clients` through `offer`, in their order,
/// and keeps the clients that took it, in their order. The flags say, client
/// by client, what `offer` answered.
pub fn fan_out<C, F: Fn(&C, &str) -> bool>(clients: Vec<C>, message: &str, offer: &F) -> (outcome: (
    Vec<C>,
    Vec<bool>,
))
    requires
        forall|client: &C, text: &str| call_requires(*offer, (client, text)),
    ensures
        outcome.1@.len() == clients@.len(),
        forall|i: int|
            0 <= i < clients@.len() ==> call_ensures(
                *offer,
                (&clients@[i], message),
                #[trigger] outcome.1@[i],
            ),
        outcome.0@ == kept(clients@, outcome.1@),
{
    let mut accepted: Vec<bool> = Vec::new();
    let mut i: usize = 0;
    while i < clients.len()
        invariant
            i <= clients@.len(),
            accepted@.len() == i,
            forall|client: &C, text: &str| call_requires(*offer, (client, text)),
            forall|j: int|
                0 <= j < i ==> call_ensures(*offer, (&clients@[j], message), #[trigger] accepted@[j]),
        decreases clients@.len() - i,
    {
        let took = offer(&clients[i], message);
        accepted.push(took);
        i = i + 1;
    }
    let rest = retain_accepted(clients, &accepted);
    (rest, accepted)
}

/// `offer` was asked to hand `message` to `client` and answered `answer`.
pub open spec fn was_offered<C, F: Fn(&C, &str) -> bool>(
    offer: F,
    client: C,
    message: Seq<char>,
    answer: bool,
) -> bool {
    exists|text: &str| text@ == message && #[trigger] call_ensures(offer, (&client, text), answer)
}

/// One round: `message` was offered to each of `clients`, and `flags` are
/// the answers, client by client.
pub open spec fn round_offered<C, F: Fn(&C, &str) -> bool>(
    offer: F,
    clients: Seq<C>,
    message: Seq<char>,
    flags: Seq<bool>,
) -> bool {
    &&& flags.len() == clients.len()
    &&& forall|i: int|
        0 <= i < clients.len() ==> was_offered(offer, clients[i], message, #[trigger] flags[i])
}

/// The clients that are left after some rounds: after each round those stay
/// that took its message.
pub open spec fn after_rounds<C>(clients: Seq<C>, flags: Seq<Seq<bool>>) -> Seq<C>
    decreases flags.len(),
{
    if flags.len() == 0 {
        clients
    } else {
        kept(after_rounds(clients, flags.drop_last()), flags.last())
    }
}

/// The flags of some rounds.
pub open spec fn flags_of(rounds: Seq<Vec<bool>>) -> Seq<Seq<bool>> {
    rounds.map_values(|flags: Vec<bool>| flags@)
}

/// The texts of some messages.
pub open spec fn bodies_of(messages: Seq<String>) -> Seq<Seq<char>> {
    messages.map_values(|m: String| m@)
}

/// Every message, in its turn, was offered to each client that was left
/// when its turn came, and `flags` are the answers.
pub open spec fn all_offered<C, F: Fn(&C, &str) -> bool>(
    offer: F,
    clients: Seq<C>,
    messages: Seq<Seq<char>>,
    flags: Seq<Seq<bool>>,
) -> bool {
    &&& flags.len() == messages.len()
    &&& forall|r: int|
        0 <= r < messages.len() ==> round_offered(
            offer,
            after_rounds(clients, flags.take(r)),
            messages[r],
            #[trigger] flags[r],
        )
}

/// Offers each of `messages`, in their order, to the clients that are left
/// when its turn comes, each round as `fan_out` does. The flags say, round
/// by round and client by client, what `offer` answered.
pub fn fan_out_all<C, F: Fn(&C, &str) -> bool>(clients: Vec<C>, messages: &Vec<String>, offer: &F) -> (outcome:
    (Vec<C>, Vec<Vec<bool>>))
    requires
        forall|client: &C, text: &str| call_requires(*offer, (client, text)),
    ensures
        all_offered(*offer, clients@, bodies_of(messages@), flags_of(outcome.1@)),
        outcome.0@ == after_rounds(clients@, flags_of(outcome.1@)),
{
    let ghost first = clients@;
    let mut current = clients;
    let mut rounds: Vec<Vec<bool>> = Vec::new();
    let mut r: usize = 0;
    proof {
        assert(flags_of(rounds@) =~= Seq::<Seq<bool>>::empty());
    }
    while r < messages.len()
        invariant
            r <= messages@.len(),
            rounds@.len() == r,
            forall|client: &C, text: &str| call_requires(*offer, (client, text)),
            current@ == after_rounds(first, flags_of(rounds@)),
            forall|q: int|
                0 <= q < r ==> round_offered(
                    *offer,
                    after_rounds(first, flags_of(rounds@).take(q)),
                    bodies_of(messages@)[q],
                    #[trigger] flags_of(rounds@)[q],
                ),
        decreases messages@.len() - r,
    {
        let ghost before = flags_of(rounds@);
        let ghost standing = current@;
        let text = messages[r].as_str();
        let (rest, flags) = fan_out(current, text, offer);
        current = rest;
        rounds.push(flags);
        proof {
            let now = flags_of(rounds@);
            assert(now =~= before.push(flags@));
            assert(now.drop_last() =~= before);
            assert(now.take(r as int) =~= before);
            assert forall|q: int| 0 <= q < r + 1 implies round_offered(
                *offer,
                after_rounds(first, now.take(q)),
                bodies_of(messages@)[q],
                #[trigger] now[q],
            ) by {
                if q < r {
                    assert(now.take(q) =~= before.take(q));
                    assert(now[q] == before[q]);
                } else {
                    assert forall|i: int| 0 <= i < standing.len() implies was_offered(
                        *offer,
                        standing[i],
                        bodies_of(messages@)[q],
                        #[trigger] flags@[i],
                    ) by {
                        assert(call_ensures(*offer, (&standing[i], text), flags@[i]));
                    }
                }
            }
        }
        r = r + 1;
    }
    (current, rounds)
}

/// What one piece of a server's output brought: what the decoder made of it,
/// and the answers of the clients to each message in it.
pub struct Relayed {
    pub outcomes: Vec<Result<String, ProtocolError>>,
    pub accepted: Vec<Vec<bool>>,
}

/// The messages among what came out of a stream, in their order.
pub open spec fn messages_in(outcomes: Seq<Outcome>) -> Seq<Seq<char>>
    decreases outcomes.len(),
{
    if outcomes.len() == 0 {
        Seq::empty()
    } else {
        match outcomes.last() {
            Ok(message) => messages_in(outcomes.drop_last()).push(message),
            Err(_) => messages_in(outcomes.drop_last()),
        }
    }
}

/// The messages among `outcomes`, in their order.
pub fn messages_of(outcomes: &Vec<Result<String, ProtocolError>>) -> (messages: Vec<String>)
    ensures
        bodies_of(messages@) == messages_in(texts(outcomes@)),
{
    let mut messages: Vec<String> = Vec::new();
    let mut i: usize = 0;
    proof {
        assert(texts(outcomes@).take(0) =~= Seq::<Outcome>::empty());
        assert(bodies_of(messages@) =~= Seq::<Seq<char>>::empty());
    }
    while i < outcomes.len()
        invariant
            i <= outcomes@.len(),
            bodies_of(messages@) == messages_in(texts(outcomes@).take(i as int)),
        decreases outcomes@.len() - i,
    {
        let ghost before = messages@;
        proof {
            let next = texts(outcomes@).take(i + 1);
            assert(next.drop_last() =~= texts(outcomes@).take(i as int));
            assert(next.last() == texts(outcomes@)[i as int]);
        }
        match &outcomes[i] {
            Ok(message) => {
                messages.push(message.clone());
                proof {
                    assert(bodies_of(messages@) =~= bodies_of(before).push(message@));
                }
            },
            Err(_) => {},
        }
        i = i + 1;
    }
    proof {
        assert(texts(outcomes@).take(outcomes@.len() as int) =~= texts(outcomes@));
    }
    messages
}

/// Takes the next piece of a server's output: the decoder reads it, and each
/// message that it completes is offered, in the order of the stream, to the
/// clients that are left when its turn comes.
pub fn relay<C, F: Fn(&C, &str) -> bool>(
    decoder: &mut FrameDecoder,
    clients: Vec<C>,
    chunk: &[u8],
    offer: &F,
) -> (outcome: (Vec<C>, Relayed))
    requires
        forall|client: &C, text: &str| call_requires(*offer, (client, text)),
    ensures
        final(decoder)@ == run(old(decoder)@, chunk@).0,
        texts(outcome.1.outcomes@) == run(old(decoder)@, chunk@).1,
        all_offered(
            *offer,
            clients@,
            messages_in(run(old(decoder)@, chunk@).1),
            flags_of(outcome.1.accepted@),
        ),
        outcome.0@ == after_rounds(clients@, flags_of(outcome.1.accepted@)),
{
    let outcomes = decoder.feed(chunk);
    let messages = messages_of(&outcomes);
    let (rest, accepted) = fan_out_all(clients, &messages, offer);
    (rest, Relayed { outcomes, accepted })
}

/// The clients of one language server, in the order in which they
/// connected.
pub struct ClientSet {
    clients: Vec<UnboundedSender<String>>,
}

impl View for ClientSet {
    type V = Seq<UnboundedSender<String>>;

    closed spec fn view(&self) -> Seq<UnboundedSender<String>> {
        self.clients@
    }
}

impl ClientSet {
    /// No client is connected.
    pub fn new() -> (set: ClientSet)
        ensures
            set@ == Seq::<UnboundedSender<String>>::empty(),
    {
        ClientSet { clients: Vec::new() }
    }

    /// The number of clients.
    pub fn len(&self) -> (count: usize)
        ensures
            count == self@.len(),
    {
        self.clients.len()
    }

    /// A client has connected: it comes after those that are there.
    pub fn connect(&mut self, client: UnboundedSender<String>)
        ensures
            final(self)@ == old(self)@.push(client),
    {
        self.clients.push(client);
    }

    /// Offers `message` to the queue of every client, in the order in which
    /// they connected, and drops the clients whose queue did not take it: the
    /// fan-out of `fan_out` over the clients' queues. The flags say, client
    /// by client, who took it.
    pub fn broadcast(&mut self, message: &str) -> (accepted: Vec<bool>)
        ensures
            accepted@.len() == old(self)@.len(),
            final(self)@ == kept(old(self)@, accepted@),
    {
        let mut clients: Vec<UnboundedSender<String>> = Vec::new();
        std::mem::swap(&mut self.clients, &mut clients);
        let (rest, accepted) = fan_out(clients, message, &offer);
        self.clients = rest;
        accepted
    }

    /// Takes the next piece of the server's output: the decoder reads it,
    /// and each message that it completes is offered, in the order of the
    /// stream, to the queue of every client that is left when its turn
    /// comes: the relay of `relay` over the clients' queues.
    pub fn pump(&mut self, decoder: &mut FrameDecoder, chunk: &[u8]) -> (relayed: Relayed)
        ensures
            final(decoder)@ == run(old(decoder)@, chunk@).0,
            texts(relayed.outcomes@) == run(old(decoder)@, chunk@).1,
            flags_of(relayed.accepted@).len() == messages_in(run(old(decoder)@, chunk@).1).len(),
            final(self)@ == after_rounds(old(self)@, flags_of(relayed.accepted@)),
    {
        let mut clients: Vec<UnboundedSender<String>> = Vec::new();
        std::mem::swap(&mut self.clients, &mut clients);
        let (rest, relayed) = relay(decoder, clients, chunk, &offer);
        self.clients = rest;
        relayed
    }
}

/// The number of the first `n` clients that took the message.
pub open spec fn taken_before<C>(clients: Seq<C>, accepted: Seq<bool>, n: int) -> int {
    kept_of(clients, accepted, n).len() as int
}

/// Who took the message stays, whoever else did not, and the order of those
/// who stay is the order in which they connected: the client at `i` stands
/// after as many clients as took the message before it.
pub proof fn lemma_kept_client<C>(clients: Seq<C>, accepted: Seq<bool>, i: int)
    requires
        0 <= i < clients.len(),
        took(accepted, i),
    ensures
        0 <= taken_before(clients, accepted, i) < kept(clients, accepted).len(),
        kept(clients, accepted)[taken_before(clients, accepted, i)] == clients[i],
{
    let here = kept_of(clients, accepted, i + 1);
    assert(here == kept_of(clients, accepted, i).push(clients[i]));
    lemma_kept_grows(clients, accepted, i + 1, clients.len() as int);
    assert(here[taken_before(clients, accepted, i)] == clients[i]);
}

/// The clients kept among the first `n` stay where they are when more
/// clients are looked at.
proof fn lemma_kept_grows<C>(clients: Seq<C>, accepted: Seq<bool>, n: int, m: int)
    requires
        0 <= n <= m <= clients.len(),
    ensures
        kept_of(clients, accepted, n).len() <= kept_of(clients, accepted, m).len(),
        forall|j: int|
            0 <= j < kept_of(clients, accepted, n).len() ==> kept_of(clients, accepted, m)[j]
                == #[trigger] kept_of(clients, accepted, n)[j],
    decreases m - n,
{
    if n < m {
        lemma_kept_grows(clients, accepted, n, m - 1);
    }
}

/// Where every client took the message, the clients are as they were.
pub proof fn lemma_all_kept<C>(clients: Seq<C>, accepted: Seq<bool>)
    requires
        forall|i: int| 0 <= i < clients.len() ==> took(accepted, i),
    ensures
        kept(clients, accepted) == clients,
{
    lemma_all_kept_of(clients, accepted, clients.len() as int);
    assert(clients.take(clients.len() as int) =~= clients);
}

/// Where every client took the message, the first `n` are all kept.
proof fn lemma_all_kept_of<C>(clients: Seq<C>, accepted: Seq<bool>, n: int)
    requires
        0 <= n <= clients.len(),
        forall|i: int| 0 <= i < clients.len() ==> took(accepted, i),
    ensures
        kept_of(clients, accepted, n) == clients.take(n),
    decreases n,
{
    if n > 0 {
        lemma_all_kept_of(clients, accepted, n - 1);
        assert(took(accepted, n - 1));
        assert(clients.take(n - 1).push(clients[n - 1]) =~= clients.take(n));
    } else {
        assert(clients.take(0) =~= Seq::<C>::empty());
    }
}

/// Where the client that stood at `i` stands after some rounds, as long as
/// it took every message: behind as many clients as stood before it and took
/// every message too.
pub open spec fn place<C>(clients: Seq<C>, flags: Seq<Seq<bool>>, i: int) -> int
    decreases flags.len(),
{
    if flags.len() == 0 {
        i
    } else {
        taken_before(
            after_rounds(clients, flags.drop_last()),
            flags.last(),
            place(clients, flags.drop_last(), i),
        )
    }
}

/// The client at `i` took the message of every round.
pub open spec fn took_all<C>(clients: Seq<C>, flags: Seq<Seq<bool>>, i: int) -> bool {
    forall|r: int| 0 <= r < flags.len() ==> took(#[trigger] flags[r], place(clients, flags.take(r), i))
}

/// A client that took every message is still there, whoever else left.
pub proof fn lemma_client_stays<C>(clients: Seq<C>, flags: Seq<Seq<bool>>, i: int)
    requires
        0 <= i < clients.len(),
        took_all(clients, flags, i),
    ensures
        0 <= place(clients, flags, i) < after_rounds(clients, flags).len(),
        after_rounds(clients, flags)[place(clients, flags, i)] == clients[i],
    decreases flags.len(),
{
    if flags.len() > 0 {
        let fewer = flags.drop_last();
        assert forall|r: int| 0 <= r < fewer.len() implies took(
            #[trigger] fewer[r],
            place(clients, fewer.take(r), i),
        ) by {
            assert(fewer.take(r) =~= flags.take(r));
            assert(took(flags[r], place(clients, flags.take(r), i)));
        }
        lemma_client_stays(clients, fewer, i);
        assert(flags.take(flags.len() - 1) =~= fewer);
        assert(took(flags[flags.len() - 1], place(clients, fewer, i)));
        lemma_kept_client(after_rounds(clients, fewer), flags.last(), place(clients, fewer, i));
    }
}

/// Every client gets every message, in the order of emission, and a client
/// that leaves takes nothing from the rest: a client that took every message
/// was offered each of them in its turn, whoever else left in between.
pub proof fn lemma_client_gets_all<C, F: Fn(&C, &str) -> bool>(
    offer: F,
    clients: Seq<C>,
    messages: Seq<Seq<char>>,
    flags: Seq<Seq<bool>>,
    i: int,
)
    requires
        all_offered(offer, clients, messages, flags),
        0 <= i < clients.len(),
        took_all(clients, flags, i),
    ensures
        forall|r: int|
            0 <= r < messages.len() ==> was_offered(offer, clients[i], #[trigger] messages[r], true),
        after_rounds(clients, flags)[place(clients, flags, i)] == clients[i],
{
    lemma_client_stays(clients, flags, i);
    assert forall|r: int| 0 <= r < messages.len() implies was_offered(
        offer,
        clients[i],
        #[trigger] messages[r],
        true,
    ) by {
        let before = flags.take(r);
        assert forall|q: int| 0 <= q < before.len() implies took(
            #[trigger] before[q],
            place(clients, before.take(q), i),
        ) by {
            assert(before.take(q) =~= flags.take(q));
            assert(took(flags[q], place(clients, flags.take(q), i)));
        }
        lemma_client_stays(clients, before, i);
        let here = place(clients, before, i);
        assert(round_offered(offer, after_rounds(clients, before), messages[r], flags[r]));
        assert(took(flags[r], here));
        assert(was_offered(offer, after_rounds(clients, before)[here], messages[r], flags[r][here]));
    }
}

/// The messages among what a stream of frames brings are the bodies of the
/// frames.
pub proof fn lemma_messages_in_delivered(bodies: Seq<Seq<char>>)
    ensures
        messages_in(delivered(bodies)) == bodies,
    decreases bodies.len(),
{
    if bodies.len() == 0 {
        assert(delivered(bodies) =~= Seq::<Outcome>::empty());
        assert(messages_in(delivered(bodies)) =~= bodies);
    } else {
        lemma_messages_in_delivered(bodies.drop_last());
        assert(delivered(bodies).drop_last() =~= delivered(bodies.drop_last()));
        assert(delivered(bodies).last() == Ok::<Seq<char>, ProtocolError>(bodies.last()));
        assert(bodies.drop_last().push(bodies.last()) =~= bodies);
    }
}

/// Fan-out of a server's output. Where the output of a server, read from
/// the start, is the frames of some texts, none of them empty, what `relay`
/// offers is those texts in their order; a client that takes every one of
/// them is offered each, whoever else leaves in between.
pub proof fn lemma_relay_of_frames<C, F: Fn(&C, &str) -> bool>(
    offer: F,
    clients: Seq<C>,
    bodies: Seq<Seq<char>>,
    flags: Seq<Seq<bool>>,
    i: int,
)
    requires
        forall|r: int|
            0 <= r < bodies.len() ==> 0 < encode_utf8(#[trigger] bodies[r]).len() <= usize::MAX,
        all_offered(offer, clients, messages_in(run(idle(), frames(bodies)).1), flags),
        0 <= i < clients.len(),
        took_all(clients, flags, i),
    ensures
        run(idle(), frames(bodies)).0 == idle(),
        messages_in(run(idle(), frames(bodies)).1) == bodies,
        forall|r: int|
            0 <= r < bodies.len() ==> was_offered(offer, clients[i], #[trigger] bodies[r], true),
{
    lemma_run_frames(bodies);
    lemma_messages_in_delivered(bodies);
    lemma_client_gets_all(offer, clients, bodies, flags, i);
}

} // verus!
