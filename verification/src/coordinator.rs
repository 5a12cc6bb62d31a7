//! The coordinator: the single consumer of decoded commands. On each host
//! tick it drains the relay channel, dispatches every command in arrival
//! order against the shared game, and produces one reply frame per
//! accepted command, addressed either to every registered connection or
//! to the sender alone.

use vstd::prelude::*;
use vstd::utf8::{encode_scalar, encode_utf8, is_ascii_chars};

use crate::command::{
    argument_of, has_one_sep, is_move_text, is_turn_text, parse_command, Command,
};
use crate::engine::{parses, GameState, Side};
use crate::frame::{
    decode_ok, decoded, encode, is_terminator_char, lemma_encode_decode_roundtrip, spec_encode,
    FRAME_SIZE,
};

verus! {

/// Where one reply frame is delivered.
#[derive(Clone, Copy, Debug, PartialEq, Eq, Structural)]
pub enum Target {
    /// Broadcast to every registered connection.
    All,
    /// Unicast to the one connection with this identity.
    One(u64),
}

/// The reply text for a turn query.
pub open spec fn side_text(s: Side) -> Seq<char> {
    match s {
        Side::White => "white"@,
        Side::Black => "black"@,
    }
}

/// The reply owed to one command: its payload text and its target, or
/// nothing for a malformed command.
pub open spec fn reply_of(text: Seq<char>, sender: u64, turn: Side) -> Option<(Seq<char>, Target)> {
    if is_move_text(text) {
        Some(("moved"@, Target::All))
    } else if is_turn_text(text) {
        Some((side_text(turn), Target::One(sender)))
    } else if has_one_sep(text) {
        Some((text, Target::All))
    } else {
        None
    }
}

/// The connection identities a target resolves to, given the registry:
/// every registered identity for a broadcast, the first registered match
/// for a unicast.
pub open spec fn spec_recipients(target: Target, clients: Seq<u64>) -> Seq<u64> {
    match target {
        Target::All => clients,
        Target::One(id) => if clients.contains(id) {
            seq![id]
        } else {
            Seq::empty()
        },
    }
}

/// The full effect of one command on the wire, given the registry and the
/// side to move: the encoded reply frame and the identities it goes to,
/// or nothing when the command is malformed or its reply cannot be framed.
pub open spec fn delivery_of(text: Seq<char>, sender: u64, turn: Side, clients: Seq<u64>) -> Option<
    (Seq<u8>, Seq<u64>),
> {
    match reply_of(text, sender, turn) {
        None => None,
        Some(pt) => if encode_utf8(pt.0).len() <= FRAME_SIZE {
            Some((spec_encode(pt.0), spec_recipients(pt.1, clients)))
        } else {
            None
        },
    }
}

/// The delivery of one command as a (possibly empty) reply sequence: one
/// delivery for an accepted command, none for a discarded one.
pub open spec fn delivery_seq_of(
    m: (Seq<char>, u64),
    turn: Side,
    clients: Seq<u64>,
) -> Seq<(Seq<u8>, Seq<u64>)> {
    match delivery_of(m.0, m.1, turn, clients) {
        Some(d) => seq![d],
        None => Seq::empty(),
    }
}

/// The reply trace of one tick: the deliveries of all drained commands,
/// concatenated in arrival order. `turns[i]` is the side to move when the
/// command at position `i` is dispatched.
pub open spec fn tick_trace(
    msgs: Seq<(Seq<char>, u64)>,
    turns: Seq<Side>,
    clients: Seq<u64>,
) -> Seq<(Seq<u8>, Seq<u64>)>
    recommends
        turns.len() >= msgs.len(),
    decreases msgs.len(),
{
    if msgs.len() == 0 {
        Seq::empty()
    } else {
        delivery_seq_of(msgs[0], turns[0], clients) + tick_trace(
            msgs.drop_first(),
            turns.drop_first(),
            clients,
        )
    }
}

/// The trace reads only the side recorded for each message: sequences
/// that agree there give the same trace.
pub proof fn lemma_tick_trace_agree(
    msgs: Seq<(Seq<char>, u64)>,
    t1: Seq<Side>,
    t2: Seq<Side>,
    clients: Seq<u64>,
)
    requires
        t1.len() >= msgs.len(),
        t2.len() >= msgs.len(),
        forall|j: int| 0 <= j < msgs.len() ==> t1[j] == t2[j],
    ensures
        tick_trace(msgs, t1, clients) == tick_trace(msgs, t2, clients),
    decreases msgs.len(),
{
    if msgs.len() > 0 {
        assert forall|j: int|
            0 <= j < msgs.drop_first().len() implies t1.drop_first()[j] == t2.drop_first()[j] by {
            assert(t1.drop_first()[j] == t1[j + 1]);
            assert(t2.drop_first()[j] == t2[j + 1]);
        }
        lemma_tick_trace_agree(msgs.drop_first(), t1.drop_first(), t2.drop_first(), clients);
    }
}

/// Appending one message appends its delivery to the trace.
pub proof fn lemma_tick_trace_snoc(
    msgs: Seq<(Seq<char>, u64)>,
    turns: Seq<Side>,
    m: (Seq<char>, u64),
    s: Side,
    clients: Seq<u64>,
)
    requires
        turns.len() == msgs.len(),
    ensures
        tick_trace(msgs.push(m), turns.push(s), clients) == tick_trace(msgs, turns, clients)
            + delivery_seq_of(m, s, clients),
    decreases msgs.len(),
{
    let a = msgs.push(m);
    let b = turns.push(s);
    if msgs.len() == 0 {
        assert(a[0] == m);
        assert(b[0] == s);
        assert(a.drop_first().len() == 0);
        assert(tick_trace(a.drop_first(), b.drop_first(), clients) == Seq::<(
            Seq<u8>,
            Seq<u64>,
        )>::empty());
        assert(tick_trace(a, b, clients) == delivery_seq_of(m, s, clients) + tick_trace(
            a.drop_first(),
            b.drop_first(),
            clients,
        ));
        assert(delivery_seq_of(m, s, clients) + Seq::<(Seq<u8>, Seq<u64>)>::empty()
            =~= delivery_seq_of(m, s, clients));
        assert(tick_trace(msgs, turns, clients) == Seq::<(Seq<u8>, Seq<u64>)>::empty());
        assert(Seq::<(Seq<u8>, Seq<u64>)>::empty() + delivery_seq_of(m, s, clients)
            =~= delivery_seq_of(m, s, clients));
    } else {
        assert(a.drop_first() =~= msgs.drop_first().push(m));
        assert(b.drop_first() =~= turns.drop_first().push(s));
        lemma_tick_trace_snoc(msgs.drop_first(), turns.drop_first(), m, s, clients);
        assert(a[0] == msgs[0]);
        assert(b[0] == turns[0]);
        let x = delivery_seq_of(msgs[0], turns[0], clients);
        let y = tick_trace(msgs.drop_first(), turns.drop_first(), clients);
        let z = delivery_seq_of(m, s, clients);
        assert(tick_trace(a, b, clients) == x + (y + z));
        assert(tick_trace(msgs, turns, clients) == x + y);
        assert(x + (y + z) =~= (x + y) + z);
    }
}

/// The arguments of the move commands among the drained messages, in
/// arrival order: exactly what one tick hands to the rules engine.
pub open spec fn move_args(msgs: Seq<(Seq<char>, u64)>) -> Seq<Seq<char>>
    decreases msgs.len(),
{
    if msgs.len() == 0 {
        Seq::empty()
    } else {
        (if is_move_text(msgs[0].0) {
            seq![argument_of(msgs[0].0)]
        } else {
            Seq::<Seq<char>>::empty()
        }) + move_args(msgs.drop_first())
    }
}

/// Appending one message appends its move argument, if any, to the
/// handed-over arguments.
pub proof fn lemma_move_args_snoc(msgs: Seq<(Seq<char>, u64)>, m: (Seq<char>, u64))
    ensures
        move_args(msgs.push(m)) == move_args(msgs) + (if is_move_text(m.0) {
            seq![argument_of(m.0)]
        } else {
            Seq::<Seq<char>>::empty()
        }),
    decreases msgs.len(),
{
    let a = msgs.push(m);
    let tailpiece: Seq<Seq<char>> = if is_move_text(m.0) {
        seq![argument_of(m.0)]
    } else {
        Seq::empty()
    };
    if msgs.len() == 0 {
        assert(a[0] == m);
        assert(a.drop_first().len() == 0);
        assert(move_args(a.drop_first()) == Seq::<Seq<char>>::empty());
        assert(move_args(a) == tailpiece + move_args(a.drop_first()));
        assert(tailpiece + Seq::<Seq<char>>::empty() =~= tailpiece);
        assert(move_args(msgs) == Seq::<Seq<char>>::empty());
        assert(Seq::<Seq<char>>::empty() + tailpiece =~= tailpiece);
    } else {
        assert(a.drop_first() =~= msgs.drop_first().push(m));
        lemma_move_args_snoc(msgs.drop_first(), m);
        assert(a[0] == msgs[0]);
        let x: Seq<Seq<char>> = if is_move_text(msgs[0].0) {
            seq![argument_of(msgs[0].0)]
        } else {
            Seq::empty()
        };
        let y = move_args(msgs.drop_first());
        assert(move_args(a) == x + (y + tailpiece));
        assert(move_args(msgs) == x + y);
        assert(x + (y + tailpiece) =~= (x + y) + tailpiece);
    }
}

/// Some drained command is a move command.
pub open spec fn has_move_command(msgs: Seq<(Seq<char>, u64)>) -> bool {
    exists|j: int| 0 <= j < msgs.len() && is_move_text(#[trigger] msgs[j].0)
}

/// A well-formed side-to-move record for one tick: one entry per drained
/// command plus the final side, where only a `move` command may change
/// the side from one entry to the next.
pub open spec fn turns_ok(msgs: Seq<(Seq<char>, u64)>, turns: Seq<Side>) -> bool {
    &&& turns.len() == msgs.len() + 1
    &&& forall|i: int|
        0 <= i < msgs.len() && !is_move_text(#[trigger] msgs[i].0) ==> turns[i + 1] == turns[i]
}

/// The view of a drained inbox: each entry's decoded text and sender.
pub open spec fn inbox_view(inbox: Seq<(String, u64)>) -> Seq<(Seq<char>, u64)> {
    inbox.map_values(|e: (String, u64)| (e.0@, e.1))
}

/// The view of the produced replies.
pub open spec fn out_view(out: Seq<Delivery>) -> Seq<(Seq<u8>, Seq<u64>)> {
    out.map_values(|d: Delivery| d@)
}

/// One reply frame together with the registered identities that must
/// receive it.
pub struct Delivery {
    pub frame: Vec<u8>,
    pub targets: Vec<u64>,
}

impl View for Delivery {
    type V = (Seq<u8>, Seq<u64>);

    open spec fn view(&self) -> (Seq<u8>, Seq<u64>) {
        (self.frame@, self.targets@)
    }
}

/// What dispatching one command produced: the reply owed, if any, and —
/// for a move command — whether the rules engine accepted the move. The
/// verdict is surfaced for server-side logging only; the wire reply never
/// distinguishes an accepted move from a rejected one.
pub struct Dispatch {
    pub reply: Option<Delivery>,
    pub move_accepted: Option<bool>,
}

/// The single consumer of the relay channel: owns the authoritative game
/// and the registry of connection identities.
pub struct Coordinator {
    game: GameState,
    clients: Vec<u64>,
}

impl Coordinator {
    /// The registered connection identities, in registration order.
    pub closed spec fn registry(&self) -> Seq<u64> {
        self.clients@
    }

    /// The whole game: the engine's position, the mirrored side to move,
    /// and the history of notations handed to the engine.
    pub closed spec fn game(&self) -> GameState {
        self.game
    }

    /// The side to move, as the game mirrors it from the rules engine.
    pub closed spec fn turn(&self) -> Side {
        self.game.turn()
    }

    /// Every notation handed to the rules engine so far, oldest first.
    pub closed spec fn handed(&self) -> Seq<Seq<char>> {
        self.game.handed()
    }

    /// A coordinator over a fresh game — White to move, nothing handed to
    /// the engine — with no connection registered.
    pub fn new() -> (c: Coordinator)
        ensures
            c.registry() == Seq::<u64>::empty(),
            c.turn() == Side::White,
            c.handed() == Seq::<Seq<char>>::empty(),
    {
        Coordinator { game: GameState::new(), clients: Vec::new() }
    }

    /// Registers one accepted connection, touching nothing of the game.
    /// Identities are never removed: a connection whose reader has
    /// terminated merely goes stale, and writes to it fail per target.
    pub fn register(&mut self, id: u64)
        ensures
            final(self).registry() == old(self).registry().push(id),
            final(self).game() == old(self).game(),
    {
        self.clients.push(id);
    }

    /// Resolves a reply target to the identities it is delivered to.
    fn recipients(&self, target: Target) -> (r: Vec<u64>)
        ensures
            r@ == spec_recipients(target, self.registry()),
    {
        match target {
            Target::All => {
                let mut v: Vec<u64> = Vec::new();
                let mut i: usize = 0;
                while i < self.clients.len()
                    invariant
                        0 <= i <= self.clients@.len(),
                        v@ == self.clients@.take(i as int),
                    decreases self.clients@.len() - i,
                {
                    v.push(self.clients[i]);
                    i = i + 1;
                }
                proof {
                    assert(v@ =~= self.clients@);
                }
                v
            },
            Target::One(id) => {
                let mut i: usize = 0;
                while i < self.clients.len()
                    invariant
                        0 <= i <= self.clients@.len(),
                        target == Target::One(id),
                        forall|j: int| 0 <= j < i ==> self.clients@[j] != id,
                    decreases self.clients@.len() - i,
                {
                    if self.clients[i] == id {
                        let mut v: Vec<u64> = Vec::new();
                        v.push(id);
                        proof {
                            assert(self.clients@[i as int] == id);
                            assert(self.clients@.contains(id));
                            assert(v@ =~= seq![id]);
                        }
                        return v;
                    }
                    i = i + 1;
                }
                proof {
                    assert(!self.clients@.contains(id));
                }
                let v: Vec<u64> = Vec::new();
                proof {
                    assert(v@ =~= Seq::<u64>::empty());
                }
                v
            },
        }
    }

    /// Dispatches one decoded command from the connection `sender`: a
    /// `move` command hands its argument to the rules engine, exactly
    /// once, and is answered with a broadcast `moved` whether or not the
    /// engine accepted it; a `turn` command is answered to the sender
    /// alone with the side to move; any other well-formed command is
    /// echoed to everyone; a malformed command is silently discarded,
    /// leaving everything unchanged.
    pub fn handle_message(&mut self, text: &str, sender: u64) -> (d: Dispatch)
        ensures
            final(self).registry() == old(self).registry(),
            !is_move_text(text@) ==> *final(self) == *old(self) && d.move_accepted is None,
            is_move_text(text@) ==> final(self).handed() == old(self).handed().push(
                argument_of(text@),
            ) && (d.move_accepted matches Some(acc) && (acc ==> is_ascii_chars(argument_of(text@))
                && parses(argument_of(text@)))),
            match delivery_of(text@, sender, old(self).turn(), old(self).registry()) {
                Some(dd) => d.reply matches Some(del) && del@ == dd,
                None => d.reply is None,
            },
    {
        let cmd = parse_command(text);
        let (payload, target, accepted): (String, Target, Option<bool>) = match cmd {
            Command::Malformed => {
                return Dispatch { reply: None, move_accepted: None };
            },
            Command::Move(arg) => {
                let acc = self.game.apply_move(arg.as_str());
                ("moved".to_owned(), Target::All, Some(acc))
            },
            Command::Turn => {
                let side = self.game.side_to_move();
                let label: &str = match side {
                    Side::White => "white",
                    Side::Black => "black",
                };
                (label.to_owned(), Target::One(sender), None)
            },
            Command::Other => (text.to_owned(), Target::All, None),
        };
        match encode(payload.as_str()) {
            Err(_) => Dispatch { reply: None, move_accepted: accepted },
            Ok(f) => {
                let targets = self.recipients(target);
                Dispatch { reply: Some(Delivery { frame: f, targets }), move_accepted: accepted }
            },
        }
    }

    /// One host tick: dispatches every drained command in arrival order
    /// and returns the replies owed, in that same order, together with
    /// the engine's verdict on each move command, in that same order. The
    /// reply trace is the in-order concatenation of each command's
    /// delivery, each dispatched against the side to move it found; the
    /// move commands' arguments — and nothing else — are handed to the
    /// rules engine, each exactly once; a tick without a move command
    /// changes nothing at all.
    pub fn tick(&mut self, inbox: &Vec<(String, u64)>) -> (r: (Vec<Delivery>, Vec<bool>))
        ensures
            final(self).registry() == old(self).registry(),
            final(self).handed() == old(self).handed() + move_args(inbox_view(inbox@)),
            !has_move_command(inbox_view(inbox@)) ==> *final(self) == *old(self),
            r.1@.len() == move_args(inbox_view(inbox@)).len(),
            forall|k: int|
                0 <= k < r.1@.len() && r.1@[k] ==> is_ascii_chars(
                    #[trigger] move_args(inbox_view(inbox@))[k],
                ) && parses(move_args(inbox_view(inbox@))[k]),
            exists|turns: Seq<Side>|
                {
                    &&& #[trigger] turns_ok(inbox_view(inbox@), turns)
                    &&& turns[0] == old(self).turn()
                    &&& turns[inbox@.len() as int] == final(self).turn()
                    &&& out_view(r.0@) == tick_trace(
                        inbox_view(inbox@),
                        turns,
                        old(self).registry(),
                    )
                },
    {
        let ghost msgs = inbox_view(inbox@);
        let mut out: Vec<Delivery> = Vec::new();
        let mut flags: Vec<bool> = Vec::new();
        let mut i: usize = 0;
        let ghost mut turns: Seq<Side> = seq![self.turn()];
        while i < inbox.len()
            invariant
                0 <= i <= inbox@.len(),
                msgs == inbox_view(inbox@),
                msgs.len() == inbox@.len(),
                turns.len() == i + 1,
                turns[0] == old(self).turn(),
                turns[i as int] == self.turn(),
                self.registry() == old(self).registry(),
                self.handed() == old(self).handed() + move_args(msgs.take(i as int)),
                !has_move_command(msgs.take(i as int)) ==> *self == *old(self),
                flags@.len() == move_args(msgs.take(i as int)).len(),
                forall|k: int|
                    0 <= k < flags@.len() && flags@[k] ==> is_ascii_chars(
                        #[trigger] move_args(msgs.take(i as int))[k],
                    ) && parses(move_args(msgs.take(i as int))[k]),
                forall|j: int|
                    0 <= j < i && !is_move_text(#[trigger] msgs[j].0) ==> turns[j + 1] == turns[j],
                out_view(out@) == tick_trace(
                    msgs.take(i as int),
                    turns.take(i as int),
                    old(self).registry(),
                ),
            decreases inbox@.len() - i,
        {
            proof {
                assert(msgs[i as int] == (inbox@[i as int].0@, inbox@[i as int].1));
            }
            let ghost state_before = *self;
            let ghost turn_before = self.turn();
            let ghost out_before = out@;
            let d = self.handle_message(inbox[i].0.as_str(), inbox[i].1);
            match d.reply {
                Some(del) => out.push(del),
                None => {},
            }
            match d.move_accepted {
                Some(acc) => flags.push(acc),
                None => {},
            }
            proof {
                lemma_tick_trace_snoc(
                    msgs.take(i as int),
                    turns.take(i as int),
                    msgs[i as int],
                    turn_before,
                    old(self).registry(),
                );
                lemma_move_args_snoc(msgs.take(i as int), msgs[i as int]);
                assert(msgs.take(i + 1) =~= msgs.take(i as int).push(msgs[i as int]));
                assert(turns.push(self.turn()).take(i + 1) =~= turns.take(i as int).push(
                    turn_before,
                ));
                match delivery_of(
                    msgs[i as int].0,
                    msgs[i as int].1,
                    turn_before,
                    old(self).registry(),
                ) {
                    Some(dd) => {
                        assert(out@ == out_before.push(out@.last()));
                        assert(out_view(out@) =~= out_view(out_before).push(out@.last()@));
                        assert(delivery_seq_of(
                            msgs[i as int],
                            turn_before,
                            old(self).registry(),
                        ) =~= seq![dd]);
                    },
                    None => {
                        assert(out@ == out_before);
                        assert(delivery_seq_of(msgs[i as int], turn_before, old(self).registry())
                            =~= Seq::<(Seq<u8>, Seq<u64>)>::empty());
                    },
                }
                assert(out_view(out@) =~= tick_trace(
                    msgs.take(i + 1),
                    turns.push(self.turn()).take(i + 1),
                    old(self).registry(),
                ));
                if is_move_text(msgs[i as int].0) {
                    assert(self.handed() == old(self).handed() + move_args(msgs.take(i as int))
                        + seq![argument_of(msgs[i as int].0)]);
                    assert(old(self).handed() + move_args(msgs.take(i as int)) + seq![
                        argument_of(msgs[i as int].0),
                    ] =~= old(self).handed() + move_args(msgs.take(i + 1)));
                } else {
                    assert(move_args(msgs.take(i as int)) + Seq::<Seq<char>>::empty()
                        =~= move_args(msgs.take(i as int)));
                    assert(*self == state_before);
                }
                assert(!has_move_command(msgs.take(i + 1)) ==> *self == *old(self)) by {
                    if !has_move_command(msgs.take(i + 1)) {
                        assert(!is_move_text(msgs[i as int].0)) by {
                            if is_move_text(msgs[i as int].0) {
                                assert(is_move_text(msgs.take(i + 1)[i as int].0));
                            }
                        }
                        assert(!has_move_command(msgs.take(i as int))) by {
                            if has_move_command(msgs.take(i as int)) {
                                let j = choose|j: int|
                                    0 <= j < msgs.take(i as int).len() && is_move_text(
                                        #[trigger] msgs.take(i as int)[j].0,
                                    );
                                assert(is_move_text(msgs.take(i + 1)[j].0));
                            }
                        }
                    }
                }
                turns = turns.push(self.turn());
            }
            i = i + 1;
        }
        proof {
            assert(msgs.take(i as int) =~= msgs);
            lemma_tick_trace_agree(msgs, turns.take(i as int), turns, old(self).registry());
            assert(turns_ok(msgs, turns));
            assert(out_view(out@) == tick_trace(msgs, turns, old(self).registry()));
        }
        (out, flags)
    }
}

/// The UTF-8 encoding of a text never takes more than four bytes per
/// character.
pub proof fn lemma_encode_utf8_len_bound(s: Seq<char>)
    ensures
        encode_utf8(s).len() <= 4 * s.len(),
    decreases s.len(),
{
    if s.len() > 0 {
        assert(encode_scalar(s[0] as u32).len() <= 4);
        lemma_encode_utf8_len_bound(s.drop_first());
    }
}

/// A short reply text with no NUL or delimiter character survives the
/// frame round trip.
proof fn lemma_reply_text_clean(s: Seq<char>)
    requires
        4 * s.len() < FRAME_SIZE,
        forall|i: int| 0 <= i < s.len() ==> !is_terminator_char(#[trigger] s[i]),
    ensures
        encode_utf8(s).len() <= FRAME_SIZE,
        decode_ok(spec_encode(s)),
        decoded(spec_encode(s)) == s,
{
    lemma_encode_utf8_len_bound(s);
    lemma_encode_decode_roundtrip(s);
}

/// The characters of the `moved` reply text.
proof fn lemma_moved_chars()
    ensures
        "moved"@.len() == 5,
        forall|i: int| 0 <= i < "moved"@.len() ==> !is_terminator_char(#[trigger] "moved"@[i]),
{
    reveal_strlit("moved");
    assert forall|i: int| 0 <= i < "moved"@.len() implies !is_terminator_char(
        #[trigger] "moved"@[i],
    ) by {
        reveal_strlit("moved");
        if i == 0 {
            assert("moved"@[0] == 'm');
        } else if i == 1 {
            assert("moved"@[1] == 'o');
        } else if i == 2 {
            assert("moved"@[2] == 'v');
        } else if i == 3 {
            assert("moved"@[3] == 'e');
        } else {
            assert("moved"@[4] == 'd');
        }
    }
}

/// The characters of the two turn reply texts.
proof fn lemma_side_chars(s: Side)
    ensures
        side_text(s).len() == 5,
        forall|i: int| 0 <= i < side_text(s).len() ==> !is_terminator_char(#[trigger] side_text(s)[i]),
{
    reveal_strlit("white");
    reveal_strlit("black");
    match s {
        Side::White => {
            assert forall|i: int| 0 <= i < side_text(s).len() implies !is_terminator_char(
                #[trigger] side_text(s)[i],
            ) by {
                reveal_strlit("white");
                if i == 0 {
                    assert("white"@[0] == 'w');
                } else if i == 1 {
                    assert("white"@[1] == 'h');
                } else if i == 2 {
                    assert("white"@[2] == 'i');
                } else if i == 3 {
                    assert("white"@[3] == 't');
                } else {
                    assert("white"@[4] == 'e');
                }
            }
        },
        Side::Black => {
            assert forall|i: int| 0 <= i < side_text(s).len() implies !is_terminator_char(
                #[trigger] side_text(s)[i],
            ) by {
                reveal_strlit("black");
                if i == 0 {
                    assert("black"@[0] == 'b');
                } else if i == 1 {
                    assert("black"@[1] == 'l');
                } else if i == 2 {
                    assert("black"@[2] == 'a');
                } else if i == 3 {
                    assert("black"@[3] == 'c');
                } else {
                    assert("black"@[4] == 'k');
                }
            }
        },
    }
}

/// Move broadcast: a `move` command from any sender is answered with one
/// frame that decodes to `moved`, delivered to every registered
/// connection — in particular to both of two connected clients.
pub proof fn lemma_move_broadcast(
    text: Seq<char>,
    sender: u64,
    turn: Side,
    clients: Seq<u64>,
    a: u64,
    b: u64,
)
    requires
        is_move_text(text),
        clients.contains(a),
        clients.contains(b),
    ensures
        delivery_of(text, sender, turn, clients) matches Some(p) && p.1 == clients && p.1.contains(
            a,
        ) && p.1.contains(b) && decode_ok(p.0) && decoded(p.0) == "moved"@,
{
    lemma_moved_chars();
    lemma_reply_text_clean("moved"@);
}

/// Turn unicast: a `turn` command from `a` is answered to `a` alone with
/// the side to move; any other connection `b` receives nothing from it.
pub proof fn lemma_turn_unicast(text: Seq<char>, a: u64, b: u64, turn: Side, clients: Seq<u64>)
    requires
        is_turn_text(text),
        clients.contains(a),
        b != a,
    ensures
        delivery_of(text, a, turn, clients) matches Some(p) && p.1 == seq![a] && !p.1.contains(b)
            && decode_ok(p.0) && decoded(p.0) == side_text(turn),
{
    assert(!is_move_text(text)) by {
        reveal_strlit("move");
        reveal_strlit("turn");
        assert("move"@[0] != "turn"@[0]);
    }
    lemma_side_chars(turn);
    lemma_reply_text_clean(side_text(turn));
    assert(!seq![a].contains(b)) by {
        assert(forall|i: int| 0 <= i < seq![a].len() ==> seq![a][i] == a);
    }
}

/// A malformed command — not exactly one `:` separator — produces no
/// reply at all.
pub proof fn lemma_malformed_no_reply(text: Seq<char>, sender: u64, turn: Side, clients: Seq<u64>)
    requires
        !has_one_sep(text),
    ensures
        delivery_of(text, sender, turn, clients) is None,
{
}

/// Malformed command isolation: a malformed command leaves the tick's
/// reply trace exactly as if it had never been sent, so the commands
/// around it — from the same sender or any other — are dispatched
/// normally.
pub proof fn lemma_malformed_isolation(
    msgs: Seq<(Seq<char>, u64)>,
    turns: Seq<Side>,
    clients: Seq<u64>,
    k: int,
)
    requires
        turns.len() >= msgs.len(),
        0 <= k < msgs.len(),
        !has_one_sep(msgs[k].0),
    ensures
        tick_trace(msgs, turns, clients) == tick_trace(msgs.remove(k), turns.remove(k), clients),
    decreases k,
{
    if k == 0 {
        assert(delivery_seq_of(msgs[0], turns[0], clients) =~= Seq::<(Seq<u8>, Seq<u64>)>::empty());
        assert(msgs.remove(0) =~= msgs.drop_first());
        assert(turns.remove(0) =~= turns.drop_first());
        assert(Seq::<(Seq<u8>, Seq<u64>)>::empty() + tick_trace(
            msgs.drop_first(),
            turns.drop_first(),
            clients,
        ) =~= tick_trace(msgs.drop_first(), turns.drop_first(), clients));
    } else {
        lemma_malformed_isolation(msgs.drop_first(), turns.drop_first(), clients, k - 1);
        assert(msgs.remove(k).drop_first() =~= msgs.drop_first().remove(k - 1));
        assert(turns.remove(k).drop_first() =~= turns.drop_first().remove(k - 1));
        assert(msgs.remove(k)[0] == msgs[0]);
        assert(turns.remove(k)[0] == turns[0]);
    }
}

/// Per-connection FIFO: commands are dispatched strictly in arrival
/// order, so the replies owed to the commands before any position `k`
/// stand, unchanged, before the replies owed to the commands from `k` on.
pub proof fn lemma_tick_trace_split(
    msgs: Seq<(Seq<char>, u64)>,
    turns: Seq<Side>,
    clients: Seq<u64>,
    k: int,
)
    requires
        turns.len() >= msgs.len(),
        0 <= k <= msgs.len(),
    ensures
        tick_trace(msgs, turns, clients) == tick_trace(msgs.take(k), turns.take(k), clients)
            + tick_trace(msgs.skip(k), turns.skip(k), clients),
    decreases k,
{
    if k == 0 {
        assert(msgs.take(0) =~= Seq::<(Seq<char>, u64)>::empty());
        assert(msgs.skip(0) =~= msgs);
        assert(turns.skip(0) =~= turns);
        assert(Seq::<(Seq<u8>, Seq<u64>)>::empty() + tick_trace(msgs, turns, clients)
            =~= tick_trace(msgs, turns, clients));
    } else {
        lemma_tick_trace_split(msgs.drop_first(), turns.drop_first(), clients, k - 1);
        assert(msgs.take(k).drop_first() =~= msgs.drop_first().take(k - 1));
        assert(turns.take(k).drop_first() =~= turns.drop_first().take(k - 1));
        assert(msgs.skip(k) =~= msgs.drop_first().skip(k - 1));
        assert(turns.skip(k) =~= turns.drop_first().skip(k - 1));
        assert(msgs.take(k)[0] == msgs[0]);
        assert(turns.take(k)[0] == turns[0]);
        let x = delivery_seq_of(msgs[0], turns[0], clients);
        let y = tick_trace(msgs.drop_first().take(k - 1), turns.drop_first().take(k - 1), clients);
        let z = tick_trace(msgs.drop_first().skip(k - 1), turns.drop_first().skip(k - 1), clients);
        assert(tick_trace(msgs, turns, clients) == x + (y + z));
        assert(tick_trace(msgs.take(k), turns.take(k), clients) == x + y);
        assert(x + (y + z) =~= (x + y) + z);
    }
}

/// Per-connection FIFO, observed through move commands: a sequence of
/// `move` commands is answered by exactly one broadcast `moved` frame per
/// command, in the same order the commands arrived.
pub proof fn lemma_moves_in_order(msgs: Seq<(Seq<char>, u64)>, turns: Seq<Side>, clients: Seq<u64>)
    requires
        turns.len() >= msgs.len(),
        forall|i: int| 0 <= i < msgs.len() ==> is_move_text(#[trigger] msgs[i].0),
    ensures
        tick_trace(msgs, turns, clients) == Seq::new(
            msgs.len(),
            |i: int| (spec_encode("moved"@), clients),
        ),
    decreases msgs.len(),
{
    lemma_moved_chars();
    lemma_reply_text_clean("moved"@);
    if msgs.len() == 0 {
        assert(tick_trace(msgs, turns, clients) =~= Seq::new(
            msgs.len(),
            |i: int| (spec_encode("moved"@), clients),
        ));
    } else {
        lemma_moves_in_order(msgs.drop_first(), turns.drop_first(), clients);
        assert(delivery_seq_of(msgs[0], turns[0], clients) =~= seq![
            (spec_encode("moved"@), clients),
        ]);
        assert(tick_trace(msgs, turns, clients) =~= Seq::new(
            msgs.len(),
            |i: int| (spec_encode("moved"@), clients),
        ));
    }
}

/// Disconnection isolation: dispatch never consults any connection's
/// transport state. A connection whose reader has terminated merely
/// leaves a stale identity in the registry, and what another connection
/// `b` receives depends only on `b`'s own registration: every broadcast
/// still lists `b`, and a unicast to `b` reaches exactly `b`.
pub proof fn lemma_disconnection_isolation(clients: Seq<u64>, b: u64)
    requires
        clients.contains(b),
    ensures
        spec_recipients(Target::All, clients).contains(b),
        spec_recipients(Target::One(b), clients) == seq![b],
{
}

} // verus!

