use discussion_ledger::codec::{
    decode_discussion, decode_user, decode_vote, encode_discussion, encode_user, encode_vote,
};
use discussion_ledger::types::{Discussion, User, Vote, VoteType};

#[test]
fn user_record_round_trips_through_bytes() {
    let u = User { username: "héllo wörld ✓".to_string(), id: 42, created_at: 1234567890123 };
    let bytes = encode_user(&u);
    let back = decode_user(&bytes);
    assert_eq!(back.username, u.username);
    assert_eq!(back.id, u.id);
    assert_eq!(back.created_at, u.created_at);
}

#[test]
fn discussion_record_round_trips_through_bytes() {
    let d = Discussion {
        id: u64::MAX,
        topic: "why ducks?".to_string(),
        created_by: "ümläut".to_string(),
        created_at: 0,
        upvotes: 17,
        downvotes: 3,
    };
    let bytes = encode_discussion(&d);
    let back = decode_discussion(&bytes);
    assert_eq!(back.id, d.id);
    assert_eq!(back.topic, d.topic);
    assert_eq!(back.created_by, d.created_by);
    assert_eq!(back.created_at, d.created_at);
    assert_eq!(back.upvotes, d.upvotes);
    assert_eq!(back.downvotes, d.downvotes);
}

#[test]
fn vote_record_round_trips_through_bytes() {
    let v = Vote {
        id: 7,
        by: "alice".to_string(),
        discussion_id: 3,
        vote_type: VoteType::Downvote,
        created_at: 99,
    };
    let bytes = encode_vote(&v);
    let back = decode_vote(&bytes);
    assert_eq!(back.id, v.id);
    assert_eq!(back.by, v.by);
    assert_eq!(back.discussion_id, v.discussion_id);
    assert!(matches!(back.vote_type, VoteType::Downvote));
    assert_eq!(back.created_at, v.created_at);

    let up = Vote { vote_type: VoteType::Upvote, ..v };
    let back_up = decode_vote(&encode_vote(&up));
    assert!(matches!(back_up.vote_type, VoteType::Upvote));
}

#[test]
fn empty_strings_round_trip_too() {
    let v = Vote {
        id: 0,
        by: "".to_string(),
        discussion_id: 0,
        vote_type: VoteType::Upvote,
        created_at: 0,
    };
    let back = decode_vote(&encode_vote(&v));
    assert_eq!(back.by, "");
}

#[test]
fn default_vote_type_is_upvote() {
    assert!(matches!(VoteType::default(), VoteType::Upvote));
}
