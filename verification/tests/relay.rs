use chess_relay::coordinator::Coordinator;
use chess_relay::engine::{GameState, Side};
use chess_relay::frame::{decode, encode};
use chess_relay::reader::{reader_step, ReadEvent, ReaderAction};

#[test]
fn fresh_game_has_white_to_move() {
    let game = GameState::new();
    assert_eq!(game.side_to_move(), Side::White);
}

#[test]
fn legal_move_advances_the_turn() {
    let mut game = GameState::new();
    assert!(game.apply_move("e2e4"));
    assert_eq!(game.side_to_move(), Side::Black);
}

#[test]
fn illegal_move_is_rejected_and_turn_kept() {
    let mut game = GameState::new();
    assert!(!game.apply_move("e7e5"));
    assert_eq!(game.side_to_move(), Side::White);
    assert!(!game.apply_move("not a move at all"));
    assert_eq!(game.side_to_move(), Side::White);
}

#[test]
fn non_ascii_notation_is_rejected_not_fatal() {
    let mut game = GameState::new();
    // A four-byte single word whose third byte is inside a multibyte
    // character; the engine's parser would slice it at a non-boundary.
    assert!(!game.apply_move("a\u{e9}!"));
    assert_eq!(game.side_to_move(), Side::White);
    assert!(game.apply_move("e2e4"));
}

#[test]
fn move_reply_is_broadcast_to_all_clients() {
    let mut c = Coordinator::new();
    c.register(1);
    c.register(2);
    let d = c.handle_message("move:e2e4", 1);
    assert_eq!(d.move_accepted, Some(true));
    let reply = d.reply.unwrap();
    assert_eq!(reply.targets, vec![1, 2]);
    assert_eq!(decode(&reply.frame).unwrap(), "moved");
}

#[test]
fn rejected_move_still_replies_moved() {
    let mut c = Coordinator::new();
    c.register(1);
    c.register(2);
    let d = c.handle_message("move:e9z9", 2);
    assert_eq!(d.move_accepted, Some(false));
    let reply = d.reply.unwrap();
    assert_eq!(reply.targets, vec![1, 2]);
    assert_eq!(decode(&reply.frame).unwrap(), "moved");
}

#[test]
fn non_ascii_move_command_still_replies_moved() {
    let mut c = Coordinator::new();
    c.register(1);
    c.register(2);
    let d = c.handle_message("move:a\u{e9}!", 1);
    assert_eq!(d.move_accepted, Some(false));
    let reply = d.reply.unwrap();
    assert_eq!(reply.targets, vec![1, 2]);
    assert_eq!(decode(&reply.frame).unwrap(), "moved");
    // The sender is still served afterwards.
    let d = c.handle_message("turn:", 1);
    assert_eq!(decode(&d.reply.unwrap().frame).unwrap(), "white");
}

#[test]
fn turn_reply_goes_to_the_sender_alone() {
    let mut c = Coordinator::new();
    c.register(1);
    c.register(2);
    let d = c.handle_message("turn:", 1);
    assert_eq!(d.move_accepted, None);
    let reply = d.reply.unwrap();
    assert_eq!(reply.targets, vec![1]);
    assert_eq!(decode(&reply.frame).unwrap(), "white");
}

#[test]
fn turn_reply_tracks_the_engine() {
    let mut c = Coordinator::new();
    c.register(7);
    let turn_of = |c: &mut Coordinator| {
        decode(&c.handle_message("turn:", 7).reply.unwrap().frame).unwrap()
    };
    assert_eq!(turn_of(&mut c), "white");
    c.handle_message("move:e2e4", 7);
    assert_eq!(turn_of(&mut c), "black");
    c.handle_message("move:e7e5", 7);
    assert_eq!(turn_of(&mut c), "white");
}

#[test]
fn game_ending_move_is_applied_too() {
    let mut c = Coordinator::new();
    c.register(1);
    // A quickest checkmate: the final move must update the game like any
    // other accepted move.
    for mv in ["move:f2f3", "move:e7e5", "move:g2g4", "move:d8h4"] {
        let d = c.handle_message(mv, 1);
        assert_eq!(d.move_accepted, Some(true));
    }
    let d = c.handle_message("turn:", 1);
    assert_eq!(decode(&d.reply.unwrap().frame).unwrap(), "white");
}

#[test]
fn unknown_action_is_echoed_to_all() {
    let mut c = Coordinator::new();
    c.register(1);
    c.register(2);
    let d = c.handle_message("chat:hello", 2);
    assert_eq!(d.move_accepted, None);
    let reply = d.reply.unwrap();
    assert_eq!(reply.targets, vec![1, 2]);
    assert_eq!(decode(&reply.frame).unwrap(), "chat:hello");
}

#[test]
fn malformed_commands_are_dropped_without_disconnecting() {
    let mut c = Coordinator::new();
    c.register(1);
    c.register(2);
    assert!(c.handle_message("no separator", 1).reply.is_none());
    assert!(c.handle_message("a:b:c", 1).reply.is_none());
    // The sender is still registered and served afterwards.
    let d = c.handle_message("turn:", 1).reply.unwrap();
    assert_eq!(d.targets, vec![1]);
    assert_eq!(decode(&d.frame).unwrap(), "white");
}

#[test]
fn tick_processes_commands_in_arrival_order() {
    let mut c = Coordinator::new();
    c.register(1);
    c.register(2);
    // Both moves are legal only in this order: white first, then black.
    let inbox = vec![
        ("move:e2e4".to_string(), 1u64),
        ("move:e7e5".to_string(), 2u64),
        ("turn:".to_string(), 1u64),
    ];
    let (out, verdicts) = c.tick(&inbox);
    assert_eq!(out.len(), 3);
    assert_eq!(decode(&out[0].frame).unwrap(), "moved");
    assert_eq!(out[0].targets, vec![1, 2]);
    assert_eq!(decode(&out[1].frame).unwrap(), "moved");
    assert_eq!(out[1].targets, vec![1, 2]);
    // Two legal moves were applied in order, so it is white's turn again.
    assert_eq!(decode(&out[2].frame).unwrap(), "white");
    assert_eq!(out[2].targets, vec![1]);
    assert_eq!(verdicts, vec![true, true]);
}

#[test]
fn tick_reports_one_verdict_per_move_command() {
    let mut c = Coordinator::new();
    c.register(1);
    let inbox = vec![
        ("move:e2e4".to_string(), 1u64),
        ("garbage".to_string(), 1u64),
        ("move:e9z9".to_string(), 1u64),
        ("turn:".to_string(), 1u64),
    ];
    let (out, verdicts) = c.tick(&inbox);
    assert_eq!(out.len(), 3);
    assert_eq!(verdicts, vec![true, false]);
}

#[test]
fn tick_skips_malformed_entries() {
    let mut c = Coordinator::new();
    c.register(1);
    let inbox = vec![
        ("garbage".to_string(), 1u64),
        ("turn:".to_string(), 1u64),
    ];
    let (out, verdicts) = c.tick(&inbox);
    assert_eq!(out.len(), 1);
    assert_eq!(decode(&out[0].frame).unwrap(), "white");
    assert!(verdicts.is_empty());
}

#[test]
fn tick_with_empty_inbox_is_a_no_op() {
    let mut c = Coordinator::new();
    c.register(1);
    let (out, verdicts) = c.tick(&vec![]);
    assert!(out.is_empty());
    assert!(verdicts.is_empty());
}

#[test]
fn closed_peer_does_not_stop_the_other() {
    let mut c = Coordinator::new();
    c.register(1);
    c.register(2);
    // Client 1's reader observes a transport failure and terminates; its
    // registry entry goes stale but is never removed.
    assert_eq!(reader_step(ReadEvent::Closed), ReaderAction::Stop);
    // Client 2 keeps sending and receiving.
    let d = c.handle_message("move:e2e4", 2).reply.unwrap();
    assert_eq!(d.targets, vec![1, 2]);
    assert_eq!(decode(&d.frame).unwrap(), "moved");
    let d = c.handle_message("turn:", 2).reply.unwrap();
    assert_eq!(d.targets, vec![2]);
    assert_eq!(decode(&d.frame).unwrap(), "black");
}

#[test]
fn unicast_to_unregistered_sender_goes_nowhere() {
    let mut c = Coordinator::new();
    c.register(1);
    let d = c.handle_message("turn:", 99).reply.unwrap();
    assert!(d.targets.is_empty());
}

#[test]
fn reader_delivers_decoded_frames() {
    let frame = encode("move:e2e4").unwrap();
    assert_eq!(
        reader_step(ReadEvent::Frame(frame)),
        ReaderAction::Deliver("move:e2e4".to_string())
    );
}

#[test]
fn reader_drops_undecodable_frames_and_goes_on() {
    let mut frame = vec![0u8; 32];
    frame[0] = 0xFF;
    assert_eq!(reader_step(ReadEvent::Frame(frame)), ReaderAction::Skip);
}

#[test]
fn reader_yields_when_nothing_is_ready() {
    assert_eq!(reader_step(ReadEvent::NotReady), ReaderAction::Skip);
}
