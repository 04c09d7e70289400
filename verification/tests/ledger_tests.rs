use discussion_ledger::ledger::Ledger;
use discussion_ledger::store::Region;
use discussion_ledger::types::{LedgerError, VoteType};

fn fresh_ledger() -> Ledger {
    let (c, u, d, v) = Region::standard_regions();
    Ledger::new(c, u, d, v)
}

#[test]
fn register_then_vote_then_unvote_then_delete() {
    let mut l = fresh_ledger();

    let alice = l.register_user("alice".to_string(), 7).unwrap();
    assert_eq!(alice.username, "alice");
    assert_eq!(alice.created_at, 7);

    let d = l
        .create_discussion("AI safety".to_string(), "alice".to_string(), 8)
        .unwrap();
    assert_eq!(d.topic, "AI safety");
    assert_eq!(d.created_by, "alice");
    assert_eq!(d.upvotes, 0);
    assert_eq!(d.downvotes, 0);

    l.vote_discussion(VoteType::Upvote, d.id, "alice".to_string(), 9)
        .unwrap();
    assert_eq!(l.get_vote_count(d.id).unwrap(), (1, 0));

    let again = l.vote_discussion(VoteType::Upvote, d.id, "alice".to_string(), 10);
    assert_eq!(again.unwrap_err(), LedgerError::AlreadyVoted);
    assert_eq!(l.get_vote_count(d.id).unwrap(), (1, 0));

    l.remove_vote(d.id, "alice".to_string()).unwrap();
    assert_eq!(l.get_vote_count(d.id).unwrap(), (0, 0));

    l.delete_user("alice".to_string()).unwrap();
    let discussions = l.get_discussions();
    assert_eq!(discussions.len(), 1);
    assert_eq!(discussions[0].created_by, "Anonymous");
    assert_eq!(discussions[0].topic, "AI safety");
    assert!(!l.is_user_registered(&"alice".to_string()));
}

#[test]
fn vote_by_unregistered_user_is_rejected_and_leaves_no_record() {
    let mut l = fresh_ledger();
    l.register_user("alice".to_string(), 1).unwrap();
    let d = l
        .create_discussion("rust".to_string(), "alice".to_string(), 2)
        .unwrap();

    let r = l.vote_discussion(VoteType::Upvote, d.id, "mallory".to_string(), 3);
    assert_eq!(r.unwrap_err(), LedgerError::NotRegistered);
    assert_eq!(l.get_vote_count(d.id).unwrap(), (0, 0));

    // Had a ballot been recorded, this later vote would fail AlreadyVoted.
    l.register_user("mallory".to_string(), 4).unwrap();
    l.vote_discussion(VoteType::Upvote, d.id, "mallory".to_string(), 5)
        .unwrap();
    assert_eq!(l.get_vote_count(d.id).unwrap(), (1, 0));
}

#[test]
fn tally_of_missing_discussion_is_not_found() {
    let l = fresh_ledger();
    assert_eq!(l.get_vote_count(999).unwrap_err(), LedgerError::NotFound);
}

#[test]
fn edit_by_creator_changes_only_the_topic() {
    let mut l = fresh_ledger();
    l.register_user("alice".to_string(), 1).unwrap();
    l.register_user("bob".to_string(), 2).unwrap();
    let d = l
        .create_discussion("first".to_string(), "alice".to_string(), 3)
        .unwrap();
    l.vote_discussion(VoteType::Downvote, d.id, "bob".to_string(), 4)
        .unwrap();

    l.edit_discussion(d.id, "second".to_string(), "alice".to_string())
        .unwrap();
    let ds = l.get_discussions();
    assert_eq!(ds.len(), 1);
    assert_eq!(ds[0].topic, "second");
    assert_eq!(ds[0].created_by, "alice");
    assert_eq!(ds[0].created_at, 3);
    assert_eq!(ds[0].id, d.id);
    assert_eq!((ds[0].upvotes, ds[0].downvotes), (0, 1));
}

#[test]
fn edit_by_non_creator_is_forbidden_and_changes_nothing() {
    let mut l = fresh_ledger();
    l.register_user("alice".to_string(), 1).unwrap();
    l.register_user("bob".to_string(), 2).unwrap();
    let d = l
        .create_discussion("first".to_string(), "alice".to_string(), 3)
        .unwrap();

    let r = l.edit_discussion(d.id, "hijacked".to_string(), "bob".to_string());
    assert_eq!(r.unwrap_err(), LedgerError::Forbidden);
    let ds = l.get_discussions();
    assert_eq!(ds[0].topic, "first");
    assert_eq!(ds[0].created_by, "alice");
}

#[test]
fn edit_rejects_empty_topic_and_missing_discussion() {
    let mut l = fresh_ledger();
    l.register_user("alice".to_string(), 1).unwrap();
    let d = l
        .create_discussion("t".to_string(), "alice".to_string(), 2)
        .unwrap();
    assert_eq!(
        l.edit_discussion(d.id, "".to_string(), "alice".to_string())
            .unwrap_err(),
        LedgerError::EmptyInput
    );
    assert_eq!(
        l.edit_discussion(d.id + 100, "x".to_string(), "alice".to_string())
            .unwrap_err(),
        LedgerError::NotFound
    );
}

#[test]
fn register_rejects_empty_and_duplicate_usernames() {
    let mut l = fresh_ledger();
    assert_eq!(
        l.register_user("".to_string(), 1).unwrap_err(),
        LedgerError::EmptyInput
    );
    l.register_user("alice".to_string(), 2).unwrap();
    assert_eq!(
        l.register_user("alice".to_string(), 3).unwrap_err(),
        LedgerError::AlreadyExists
    );
}

#[test]
fn create_discussion_rejects_empty_topic_and_unknown_user() {
    let mut l = fresh_ledger();
    l.register_user("alice".to_string(), 1).unwrap();
    assert_eq!(
        l.create_discussion("".to_string(), "alice".to_string(), 2)
            .unwrap_err(),
        LedgerError::EmptyInput
    );
    assert_eq!(
        l.create_discussion("t".to_string(), "nobody".to_string(), 3)
            .unwrap_err(),
        LedgerError::NotRegistered
    );
}

#[test]
fn remove_vote_failures() {
    let mut l = fresh_ledger();
    l.register_user("alice".to_string(), 1).unwrap();
    let d = l
        .create_discussion("t".to_string(), "alice".to_string(), 2)
        .unwrap();
    assert_eq!(
        l.remove_vote(d.id, "nobody".to_string()).unwrap_err(),
        LedgerError::NotRegistered
    );
    assert_eq!(
        l.remove_vote(d.id, "alice".to_string()).unwrap_err(),
        LedgerError::NotFound
    );
}

#[test]
fn delete_user_requires_registration() {
    let mut l = fresh_ledger();
    assert_eq!(
        l.delete_user("ghost".to_string()).unwrap_err(),
        LedgerError::NotFound
    );
}

#[test]
fn delete_user_retains_vote_weight_in_tallies() {
    // The documented exception: a deleted user's ballots vanish but their
    // weight stays in the counts.
    let mut l = fresh_ledger();
    l.register_user("alice".to_string(), 1).unwrap();
    l.register_user("bob".to_string(), 2).unwrap();
    let d = l
        .create_discussion("t".to_string(), "alice".to_string(), 3)
        .unwrap();
    l.vote_discussion(VoteType::Upvote, d.id, "alice".to_string(), 4)
        .unwrap();
    l.vote_discussion(VoteType::Upvote, d.id, "bob".to_string(), 5)
        .unwrap();
    assert_eq!(l.get_vote_count(d.id).unwrap(), (2, 0));

    l.delete_user("bob".to_string()).unwrap();
    // Counts keep the removed ballot's weight.
    assert_eq!(l.get_vote_count(d.id).unwrap(), (2, 0));

    // The ballot record itself is gone: the same name can vote again.
    l.register_user("bob".to_string(), 6).unwrap();
    l.vote_discussion(VoteType::Upvote, d.id, "bob".to_string(), 7)
        .unwrap();
    assert_eq!(l.get_vote_count(d.id).unwrap(), (3, 0));
}

#[test]
fn identifiers_increase_across_entity_kinds() {
    let mut l = fresh_ledger();
    let alice = l.register_user("alice".to_string(), 1).unwrap();
    let bob = l.register_user("bob".to_string(), 2).unwrap();
    let d = l
        .create_discussion("t".to_string(), "alice".to_string(), 3)
        .unwrap();
    let carol = l.register_user("carol".to_string(), 4).unwrap();
    assert!(alice.id < bob.id);
    assert!(bob.id < d.id);
    assert!(d.id < carol.id);
}

#[test]
fn listings_come_back_in_ascending_id_order() {
    let mut l = fresh_ledger();
    l.register_user("carol".to_string(), 1).unwrap();
    l.register_user("alice".to_string(), 2).unwrap();
    l.register_user("bob".to_string(), 3).unwrap();
    let users = l.get_users();
    assert_eq!(users.len(), 3);
    assert!(users[0].id < users[1].id && users[1].id < users[2].id);
    assert_eq!(users[0].username, "carol");
    assert_eq!(users[1].username, "alice");
    assert_eq!(users[2].username, "bob");

    l.create_discussion("one".to_string(), "alice".to_string(), 4)
        .unwrap();
    l.create_discussion("two".to_string(), "bob".to_string(), 5)
        .unwrap();
    let ds = l.get_discussions();
    assert_eq!(ds.len(), 2);
    assert!(ds[0].id < ds[1].id);
    assert_eq!(ds[0].topic, "one");
    assert_eq!(ds[1].topic, "two");
}

#[test]
fn is_user_registered_reflects_the_user_table() {
    let mut l = fresh_ledger();
    assert!(!l.is_user_registered(&"alice".to_string()));
    l.register_user("alice".to_string(), 1).unwrap();
    assert!(l.is_user_registered(&"alice".to_string()));
    l.delete_user("alice".to_string()).unwrap();
    assert!(!l.is_user_registered(&"alice".to_string()));
}

#[test]
fn deleting_one_user_leaves_other_records_alone() {
    let mut l = fresh_ledger();
    l.register_user("alice".to_string(), 1).unwrap();
    l.register_user("bob".to_string(), 2).unwrap();
    let da = l
        .create_discussion("by alice".to_string(), "alice".to_string(), 3)
        .unwrap();
    let db = l
        .create_discussion("by bob".to_string(), "bob".to_string(), 4)
        .unwrap();
    l.vote_discussion(VoteType::Downvote, db.id, "alice".to_string(), 5)
        .unwrap();
    l.vote_discussion(VoteType::Upvote, da.id, "bob".to_string(), 6)
        .unwrap();

    l.delete_user("alice".to_string()).unwrap();

    assert!(l.is_user_registered(&"bob".to_string()));
    let ds = l.get_discussions();
    assert_eq!(ds.len(), 2);
    assert_eq!(ds[0].created_by, "Anonymous");
    assert_eq!(ds[1].created_by, "bob");
    // Bob's ballot survives: voting again on the same discussion fails.
    assert_eq!(
        l.vote_discussion(VoteType::Upvote, da.id, "bob".to_string(), 7)
            .unwrap_err(),
        LedgerError::AlreadyVoted
    );
    // Alice's ballot on bob's discussion is gone, its weight retained.
    assert_eq!(l.get_vote_count(db.id).unwrap(), (0, 1));
}

#[test]
fn init_on_fresh_regions_gives_a_working_empty_ledger() {
    let (c, u, d, v) = Region::standard_regions();
    let mut l = Ledger::init(c, u, d, v);
    assert_eq!(l.get_users().len(), 0);
    assert_eq!(l.get_discussions().len(), 0);
    let alice = l.register_user("alice".to_string(), 1).unwrap();
    assert_eq!(alice.username, "alice");
}

#[test]
fn init_recovers_the_state_last_persisted_in_the_regions() {
    let (c, u, d, v) = Region::standard_regions();
    let (c2, u2, d2, v2) = (c.reopen(), u.reopen(), d.reopen(), v.reopen());

    let disc_id;
    {
        let mut l = Ledger::new(c, u, d, v);
        l.register_user("alice".to_string(), 1).unwrap();
        let disc = l
            .create_discussion("durable".to_string(), "alice".to_string(), 2)
            .unwrap();
        l.vote_discussion(VoteType::Upvote, disc.id, "alice".to_string(), 3)
            .unwrap();
        disc_id = disc.id;
    }

    // Reopen the same regions: the whole logical state comes back.
    let mut l = Ledger::init(c2, u2, d2, v2);
    assert!(l.is_user_registered(&"alice".to_string()));
    let ds = l.get_discussions();
    assert_eq!(ds.len(), 1);
    assert_eq!(ds[0].topic, "durable");
    assert_eq!(l.get_vote_count(disc_id).unwrap(), (1, 0));
    // The counter never regresses: new identifiers stay above old ones.
    let bob = l.register_user("bob".to_string(), 4).unwrap();
    assert!(bob.id > disc_id);
}

#[test]
fn ledger_state_survives_in_its_regions() {
    let (c, u, d, v) = Region::standard_regions();
    let mut l = Ledger::new(c, u, d, v);
    l.register_user("alice".to_string(), 1).unwrap();
    let disc = l
        .create_discussion("persisted".to_string(), "alice".to_string(), 2)
        .unwrap();
    l.vote_discussion(VoteType::Upvote, disc.id, "alice".to_string(), 3)
        .unwrap();
    // A later operation still sees the whole earlier state.
    assert_eq!(l.get_vote_count(disc.id).unwrap(), (1, 0));
    assert_eq!(l.get_users().len(), 1);
    assert_eq!(l.get_discussions().len(), 1);
}
