//! The record types of the ledger, their ghost views, and the error taxonomy.
use vstd::prelude::*;

verus! {

/// The two ballot kinds.
#[derive(Clone, Copy, PartialEq, Eq, Structural, Debug)]
pub enum VoteType {
    Upvote,
    Downvote,
}

impl Default for VoteType {
    fn default() -> (r: Self)
        ensures
            r == VoteType::Upvote,
    {
        VoteType::Upvote
    }
}

/// A registered user. The table's physical key is `id`; the human-facing
/// identity key is `username`.
#[derive(Clone, Debug)]
pub struct User {
    pub username: String,
    pub id: u64,
    pub created_at: u64,
}

/// Mathematical view of a `User`.
pub ghost struct UserV {
    pub username: Seq<char>,
    pub id: u64,
    pub created_at: u64,
}

impl View for User {
    type V = UserV;

    open spec fn view(&self) -> UserV {
        UserV { username: self.username@, id: self.id, created_at: self.created_at }
    }
}

/// A discussion topic with its running vote tally.
#[derive(Clone, Debug)]
pub struct Discussion {
    pub id: u64,
    pub topic: String,
    pub created_by: String,
    pub created_at: u64,
    pub upvotes: u64,
    pub downvotes: u64,
}

/// Mathematical view of a `Discussion`.
pub ghost struct DiscussionV {
    pub id: u64,
    pub topic: Seq<char>,
    pub created_by: Seq<char>,
    pub created_at: u64,
    pub upvotes: u64,
    pub downvotes: u64,
}

impl View for Discussion {
    type V = DiscussionV;

    open spec fn view(&self) -> DiscussionV {
        DiscussionV {
            id: self.id,
            topic: self.topic@,
            created_by: self.created_by@,
            created_at: self.created_at,
            upvotes: self.upvotes,
            downvotes: self.downvotes,
        }
    }
}

/// A live ballot: one per `(by, discussion_id)` pair.
#[derive(Clone, Debug)]
pub struct Vote {
    pub id: u64,
    pub by: String,
    pub discussion_id: u64,
    pub vote_type: VoteType,
    pub created_at: u64,
}

/// Mathematical view of a `Vote`.
pub ghost struct VoteV {
    pub id: u64,
    pub by: Seq<char>,
    pub discussion_id: u64,
    pub vote_type: VoteType,
    pub created_at: u64,
}

impl View for Vote {
    type V = VoteV;

    open spec fn view(&self) -> VoteV {
        VoteV {
            id: self.id,
            by: self.by@,
            discussion_id: self.discussion_id,
            vote_type: self.vote_type,
            created_at: self.created_at,
        }
    }
}

/// Every failure an operation can surface. All are local and recoverable.
#[derive(Clone, Copy, PartialEq, Eq, Structural, Debug)]
pub enum LedgerError {
    /// A required string input was blank.
    EmptyInput,
    /// A username is already taken.
    AlreadyExists,
    /// The referenced user is not registered.
    NotRegistered,
    /// The referenced entity does not exist.
    NotFound,
    /// The caller is not the owner of the record.
    Forbidden,
    /// The caller already holds a live vote on the discussion.
    AlreadyVoted,
}

impl LedgerError {
    /// A caller-facing description of the failure.
    pub fn message(&self) -> String {
        match self {
            LedgerError::EmptyInput => "Required input is empty".to_owned(),
            LedgerError::AlreadyExists => "Username already exists".to_owned(),
            LedgerError::NotRegistered => "User is not registered".to_owned(),
            LedgerError::NotFound => "Record not found".to_owned(),
            LedgerError::Forbidden => "Only the creator can edit the discussion".to_owned(),
            LedgerError::AlreadyVoted => "User has already voted on this discussion".to_owned(),
        }
    }
}

} // verus!
