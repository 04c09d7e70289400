//! The ledger: the three entity tables plus the identifier counter, and the
//! operations that mutate them while preserving the cross-table invariants.
use vstd::prelude::*;

verus! {

use crate::types::{User, UserV, Discussion, DiscussionV, Vote, VoteV, VoteType, LedgerError};
use crate::codec::{user_ok, enc_user, discussion_ok, enc_discussion, vote_ok, enc_vote,
    encode_user, decode_user, encode_discussion, decode_discussion, encode_vote, decode_vote,
    lemma_enc_user_injective, lemma_enc_discussion_injective, lemma_enc_vote_injective};
use crate::store::{Region, BytesTable, Counter, map_contents, cell_value, empty_contents,
    new_map, map_get, map_insert, map_remove, map_entries, new_cell, cell_get, cell_set,
    init_map, init_cell};
use crate::model::{table_model, table_inv, enc_injective, lemma_model_at, lemma_model_insert,
    lemma_model_remove, vote_count, lemma_vote_count_insert,
    lemma_vote_count_remove, lemma_vote_count_at_least_one};
use vstd::string::StrSliceExecFns;
use vstd::pervasive::unreached;

broadcast use vstd::set::group_set_axioms;

/// Validity of a user record's encoding domain.
pub open spec fn user_okf() -> spec_fn(UserV) -> bool {
    |v: UserV| user_ok(v)
}

/// The stored form of a user record.
pub open spec fn user_encf() -> spec_fn(UserV) -> Seq<u8> {
    |v: UserV| enc_user(v)
}

/// Validity of a discussion record's encoding domain.
pub open spec fn disc_okf() -> spec_fn(DiscussionV) -> bool {
    |v: DiscussionV| discussion_ok(v)
}

/// The stored form of a discussion record.
pub open spec fn disc_encf() -> spec_fn(DiscussionV) -> Seq<u8> {
    |v: DiscussionV| enc_discussion(v)
}

/// Validity of a vote record's encoding domain.
pub open spec fn vote_okf() -> spec_fn(VoteV) -> bool {
    |v: VoteV| vote_ok(v)
}

/// The stored form of a vote record.
pub open spec fn vote_encf() -> spec_fn(VoteV) -> Seq<u8> {
    |v: VoteV| enc_vote(v)
}

pub proof fn lemma_user_injective()
    ensures
        enc_injective(user_okf(), user_encf()),
{
    assert forall|v1: UserV, v2: UserV|
        #![trigger user_encf()(v1), user_encf()(v2)]
        user_okf()(v1) && user_okf()(v2) && user_encf()(v1) == user_encf()(v2) implies v1
        == v2 by {
        lemma_enc_user_injective(v1, v2);
    }
}

pub proof fn lemma_disc_injective()
    ensures
        enc_injective(disc_okf(), disc_encf()),
{
    assert forall|v1: DiscussionV, v2: DiscussionV|
        #![trigger disc_encf()(v1), disc_encf()(v2)]
        disc_okf()(v1) && disc_okf()(v2) && disc_encf()(v1) == disc_encf()(v2) implies v1
        == v2 by {
        lemma_enc_discussion_injective(v1, v2);
    }
}

pub proof fn lemma_vote_injective()
    ensures
        enc_injective(vote_okf(), vote_encf()),
{
    assert forall|v1: VoteV, v2: VoteV|
        #![trigger vote_encf()(v1), vote_encf()(v2)]
        vote_okf()(v1) && vote_okf()(v2) && vote_encf()(v1) == vote_encf()(v2) implies v1
        == v2 by {
        lemma_enc_vote_injective(v1, v2);
    }
}

/// A discussion with the tally of the given kind raised by one.
pub open spec fn bump_tally(d: DiscussionV, t: VoteType) -> DiscussionV {
    match t {
        VoteType::Upvote => DiscussionV { upvotes: (d.upvotes + 1) as u64, ..d },
        VoteType::Downvote => DiscussionV { downvotes: (d.downvotes + 1) as u64, ..d },
    }
}

/// A discussion with the tally of the given kind lowered by one, never below
/// zero.
pub open spec fn drop_tally(d: DiscussionV, t: VoteType) -> DiscussionV {
    match t {
        VoteType::Upvote => DiscussionV {
            upvotes: if d.upvotes > 0 {
                (d.upvotes - 1) as u64
            } else {
                0u64
            },
            ..d
        },
        VoteType::Downvote => DiscussionV {
            downvotes: if d.downvotes > 0 {
                (d.downvotes - 1) as u64
            } else {
                0u64
            },
            ..d
        },
    }
}

/// The sentinel that replaces a deleted user's name on their discussions.
pub open spec fn anon_name() -> Seq<char> {
    "Anonymous"@
}

/// The vote table without the ballots of one voter.
pub open spec fn votes_not_by(votes: Map<u64, VoteV>, name: Seq<char>) -> Map<u64, VoteV> {
    Map::new(|k: u64| votes.dom().contains(k) && votes[k].by != name, |k: u64| votes[k])
}

/// One discussion as a user deletion leaves it: reassigned to the sentinel
/// if the deleted user created it, untouched otherwise; tallies always kept.
pub open spec fn anonymize_one(d: DiscussionV, name: Seq<char>) -> DiscussionV {
    if d.created_by == name {
        DiscussionV { created_by: anon_name(), ..d }
    } else {
        d
    }
}

/// The discussion table as a user deletion leaves it.
pub open spec fn anonymize_by(discs: Map<u64, DiscussionV>, name: Seq<char>) -> Map<
    u64,
    DiscussionV,
> {
    Map::new(|k: u64| discs.dom().contains(k), |k: u64| anonymize_one(discs[k], name))
}

/// Whether one of the first `n` entries of `s` is `k`.
pub open spec fn seq_has(s: Seq<u64>, n: int, k: u64) -> bool {
    exists|j: int| 0 <= j < n && s[j] == k
}

/// The combined persistent state: one table per entity kind and the shared
/// identifier counter.
pub struct Ledger {
    counter: Counter,
    users: BytesTable,
    discussions: BytesTable,
    votes: BytesTable,
}

impl Ledger {
    /// The registered users, by identifier.
    pub closed spec fn users(self) -> Map<u64, UserV> {
        table_model(map_contents(self.users), user_okf(), user_encf())
    }

    /// The discussions, by identifier.
    pub closed spec fn discussions(self) -> Map<u64, DiscussionV> {
        table_model(map_contents(self.discussions), disc_okf(), disc_encf())
    }

    /// The live votes, by identifier.
    pub closed spec fn votes(self) -> Map<u64, VoteV> {
        table_model(map_contents(self.votes), vote_okf(), vote_encf())
    }

    /// The next identifier the allocator will hand out; strictly above every
    /// identifier ever handed out.
    pub closed spec fn next_id(self) -> u64 {
        cell_value(self.counter)
    }

    /// Some registered user carries this username.
    pub open spec fn user_named(self, name: Seq<char>) -> bool {
        exists|k: u64|
            #[trigger] self.users().dom().contains(k) && self.users()[k].username == name
    }

    /// Some live vote by this username sits on this discussion.
    pub open spec fn has_vote(self, name: Seq<char>, discussion_id: u64) -> bool {
        exists|k: u64|
            #[trigger] self.votes().dom().contains(k) && self.votes()[k].by == name
                && self.votes()[k].discussion_id == discussion_id
    }

    /// Every discussion's stored tallies equal its live vote counts. Holds
    /// between operations until a user deletion retains counts for removed
    /// ballots.
    pub open spec fn tallies_exact(self) -> bool {
        forall|d: u64|
            #[trigger] self.discussions().dom().contains(d) ==> self.discussions()[d].upvotes
                == vote_count(self.votes(), d, VoteType::Upvote) && self.discussions()[d].downvotes
                == vote_count(self.votes(), d, VoteType::Downvote)
    }

    /// The ledger's invariant: stored bytes decode to valid records keyed by
    /// their own identifier, usernames are unique, `(by, discussion_id)`
    /// pairs are unique, every identifier sits below the counter, and
    /// tallies stay below the counter.
    pub closed spec fn wf(self) -> bool {
        let u = self.users();
        let d = self.discussions();
        let v = self.votes();
        &&& table_inv(map_contents(self.users), user_okf(), user_encf())
        &&& table_inv(map_contents(self.discussions), disc_okf(), disc_encf())
        &&& table_inv(map_contents(self.votes), vote_okf(), vote_encf())
        &&& forall|k: u64|
            #[trigger] u.dom().contains(k) ==> u[k].id == k && u[k].username.len() > 0 && k
                < self.next_id()
        &&& forall|k: u64|
            #[trigger] d.dom().contains(k) ==> d[k].id == k && d[k].topic.len() > 0 && k
                < self.next_id() && d[k].upvotes + d[k].downvotes <= self.next_id()
        &&& forall|k: u64| #[trigger] v.dom().contains(k) ==> v[k].id == k && k < self.next_id()
        &&& forall|k1: u64, k2: u64|
            u.dom().contains(k1) && u.dom().contains(k2) && k1 != k2 ==> u[k1].username
                != u[k2].username
        &&& forall|k1: u64, k2: u64|
            v.dom().contains(k1) && v.dom().contains(k2) && k1 != k2 ==> !(v[k1].by == v[k2].by
                && v[k1].discussion_id == v[k2].discussion_id)
    }

    /// Creates an empty ledger in the four given regions.
    pub fn new(
        counter_region: Region,
        users_region: Region,
        discussions_region: Region,
        votes_region: Region,
    ) -> (l: Ledger)
        ensures
            l.wf(),
            l.users() == Map::<u64, UserV>::empty(),
            l.discussions() == Map::<u64, DiscussionV>::empty(),
            l.votes() == Map::<u64, VoteV>::empty(),
            l.next_id() == 0,
            l.tallies_exact(),
    {
        let l = Ledger {
            counter: new_cell(counter_region, 0),
            users: new_map(users_region),
            discussions: new_map(discussions_region),
            votes: new_map(votes_region),
        };
        proof {
            assert(l.users().dom() =~= empty_contents().dom());
            assert(l.users() =~= Map::<u64, UserV>::empty());
            assert(l.discussions().dom() =~= empty_contents().dom());
            assert(l.discussions() =~= Map::<u64, DiscussionV>::empty());
            assert(l.votes().dom() =~= empty_contents().dom());
            assert(l.votes() =~= Map::<u64, VoteV>::empty());
        }
        l
    }

    /// Opens the ledger persisted in the four given regions, or an empty one
    /// if the regions are fresh.
    ///
    /// Relies on the store's recovery (`Cell::init`, `BTreeMap::init`): each
    /// region holds, byte for byte, exactly what was last persisted in it.
    /// A ledger is only ever persisted through the operations of this type,
    /// which all preserve `wf`, and `new` establishes it; on fresh regions
    /// the recovered ledger is the empty one, which is well-formed too.
    #[verifier::external_body]
    pub fn init(
        counter_region: Region,
        users_region: Region,
        discussions_region: Region,
        votes_region: Region,
    ) -> (l: Ledger)
        ensures
            l.wf(),
    {
        Ledger {
            counter: init_cell(counter_region, 0),
            users: init_map(users_region),
            discussions: init_map(discussions_region),
            votes: init_map(votes_region),
        }
    }

    /// The counter's current value: the next identifier to be handed out.
    pub fn counter_value(&self) -> (r: u64)
        ensures
            r == self.next_id(),
    {
        cell_get(&self.counter)
    }

    /// Hands out the next identifier and durably advances the counter.
    fn allocate_id(&mut self) -> (id: u64)
        requires
            old(self).next_id() < u64::MAX,
        ensures
            id == old(self).next_id(),
            final(self).next_id() == id + 1,
            final(self).users() == old(self).users(),
            final(self).discussions() == old(self).discussions(),
            final(self).votes() == old(self).votes(),
            map_contents(final(self).users) == map_contents(old(self).users),
            map_contents(final(self).discussions) == map_contents(old(self).discussions),
            map_contents(final(self).votes) == map_contents(old(self).votes),
    {
        let id = cell_get(&self.counter);
        cell_set(&mut self.counter, id + 1);
        id
    }

    /// Looks the user up by username: the identifier and record if one
    /// carries it.
    #[verifier::loop_isolation(false)]
    fn find_user(&self, username: &String) -> (r: Option<(u64, User)>)
        requires
            self.wf(),
        ensures
            match r {
                Option::Some(p) => self.users().dom().contains(p.0) && self.users()[p.0]
                    == p.1@ && p.1@.username == username@,
                Option::None => !self.user_named(username@),
            },
    {
        let entries = map_entries(&self.users);
        let n = entries.len();
        let mut i: usize = 0;
        while i < n
            invariant
                i <= n,
                forall|j: int|
                    0 <= j < i ==> self.users()[entries@[j].0].username != username@,
            decreases n - i,
        {
            let key = entries[i].0;
            let u = {
                let bytes = &entries[i].1;
                proof {
                    assert(map_contents(self.users).contains_pair(key, bytes@));
                }
                let u = decode_user(bytes);
                proof {
                    lemma_user_injective();
                    lemma_model_at(map_contents(self.users), user_okf(), user_encf(), key, u@);
                }
                u
            };
            if u.username == *username {
                return Some((key, u));
            }
            i += 1;
        }
        proof {
            assert forall|k: u64|
                #[trigger] self.users().dom().contains(k) implies self.users()[k].username
                != username@ by {
                assert(map_contents(self.users).dom().contains(k));
                let j = choose|j: int| 0 <= j < entries@.len() && entries@[j].0 == k;
                assert(self.users()[entries@[j].0].username != username@);
            }
        }
        None
    }

    /// Whether the username belongs to a currently registered user.
    pub fn is_user_registered(&self, username: &String) -> (r: bool)
        requires
            self.wf(),
        ensures
            r == self.user_named(username@),
    {
        match self.find_user(username) {
            Some(p) => {
                proof {
                    assert(self.users().dom().contains(p.0) && self.users()[p.0].username
                        == username@);
                }
                true
            },
            None => false,
        }
    }

    /// Registers a new user under the username. Succeeds exactly when the
    /// username is non-empty and not yet taken; the new record takes the
    /// next identifier and the given creation time.
    pub fn register_user(&mut self, username: String, now: u64) -> (r: Result<User, LedgerError>)
        requires
            old(self).wf(),
            old(self).next_id() < u64::MAX,
        ensures
            final(self).wf(),
            r matches Ok(_) <==> (username@.len() > 0 && !old(self).user_named(username@)),
            match r {
                Ok(u) => {
                    &&& u@.username == username@
                    &&& u@.id == old(self).next_id()
                    &&& u@.created_at == now
                    &&& final(self).users() == old(self).users().insert(u@.id, u@)
                    &&& final(self).discussions() == old(self).discussions()
                    &&& final(self).votes() == old(self).votes()
                    &&& final(self).next_id() == old(self).next_id() + 1
                    &&& (old(self).tallies_exact() ==> final(self).tallies_exact())
                },
                Err(e) => {
                    &&& *final(self) == *old(self)
                    &&& (e == LedgerError::EmptyInput <==> username@.len() == 0)
                    &&& (e == LedgerError::AlreadyExists <==> username@.len() > 0 && old(
                        self,
                    ).user_named(username@))
                },
            },
    {
        if username.as_str().unicode_len() == 0 {
            return Err(LedgerError::EmptyInput);
        }
        if self.is_user_registered(&username) {
            return Err(LedgerError::AlreadyExists);
        }
        let id = self.allocate_id();
        let user = User { username, id, created_at: now };
        let bytes = encode_user(&user);
        proof {
            lemma_user_injective();
            lemma_model_insert(map_contents(self.users), user_okf(), user_encf(), id, user@);
            assert(user_encf()(user@) == enc_user(user@));
        }
        map_insert(&mut self.users, id, bytes);
        proof {
            assert(self.users() == old(self).users().insert(id, user@));
            assert(self.discussions() == old(self).discussions());
            assert(self.votes() == old(self).votes());
            assert(self.wf());
        }
        Ok(user)
    }

    /// Creates a discussion with the given topic, owned by the given user.
    /// Succeeds exactly when the topic is non-empty and the user is
    /// registered; the new record takes the next identifier, the given
    /// creation time, and zero tallies.
    pub fn create_discussion(&mut self, topic: String, username: String, now: u64) -> (r: Result<
        Discussion,
        LedgerError,
    >)
        requires
            old(self).wf(),
            old(self).next_id() < u64::MAX,
        ensures
            final(self).wf(),
            r matches Ok(_) <==> (topic@.len() > 0 && old(self).user_named(username@)),
            match r {
                Ok(d) => {
                    &&& d@.id == old(self).next_id()
                    &&& d@.topic == topic@
                    &&& d@.created_by == username@
                    &&& d@.created_at == now
                    &&& d@.upvotes == 0 && d@.downvotes == 0
                    &&& final(self).discussions() == old(self).discussions().insert(d@.id, d@)
                    &&& final(self).users() == old(self).users()
                    &&& final(self).votes() == old(self).votes()
                    &&& final(self).next_id() == old(self).next_id() + 1
                    &&& (old(self).tallies_exact() && vote_count(
                        old(self).votes(),
                        old(self).next_id(),
                        VoteType::Upvote,
                    ) == 0 && vote_count(
                        old(self).votes(),
                        old(self).next_id(),
                        VoteType::Downvote,
                    ) == 0 ==> final(self).tallies_exact())
                },
                Err(e) => {
                    &&& *final(self) == *old(self)
                    &&& (e == LedgerError::EmptyInput <==> topic@.len() == 0)
                    &&& (e == LedgerError::NotRegistered <==> topic@.len() > 0 && !old(
                        self,
                    ).user_named(username@))
                },
            },
    {
        if topic.as_str().unicode_len() == 0 {
            return Err(LedgerError::EmptyInput);
        }
        if !self.is_user_registered(&username) {
            return Err(LedgerError::NotRegistered);
        }
        let id = self.allocate_id();
        let discussion = Discussion {
            id,
            topic,
            created_by: username,
            created_at: now,
            upvotes: 0,
            downvotes: 0,
        };
        let bytes = encode_discussion(&discussion);
        proof {
            lemma_disc_injective();
            lemma_model_insert(
                map_contents(self.discussions),
                disc_okf(),
                disc_encf(),
                id,
                discussion@,
            );
            assert(disc_encf()(discussion@) == enc_discussion(discussion@));
        }
        map_insert(&mut self.discussions, id, bytes);
        proof {
            assert(self.discussions() == old(self).discussions().insert(id, discussion@));
            assert(self.wf());
        }
        Ok(discussion)
    }

    /// Replaces a discussion's topic. Succeeds exactly when the new topic is
    /// non-empty, the discussion exists, and the caller is its creator; only
    /// the topic changes.
    #[verifier::rlimit(30)]
    pub fn edit_discussion(&mut self, discussion_id: u64, new_topic: String, username: String) -> (r:
        Result<(), LedgerError>)
        requires
            old(self).wf(),
        ensures
            final(self).wf(),
            r matches Ok(_) <==> (new_topic@.len() > 0 && old(self).discussions().dom().contains(
                discussion_id,
            ) && old(self).discussions()[discussion_id].created_by == username@),
            match r {
                Ok(_) => {
                    &&& final(self).discussions() == old(self).discussions().insert(
                        discussion_id,
                        DiscussionV {
                            topic: new_topic@,
                            ..old(self).discussions()[discussion_id]
                        },
                    )
                    &&& final(self).users() == old(self).users()
                    &&& final(self).votes() == old(self).votes()
                    &&& final(self).next_id() == old(self).next_id()
                    &&& (old(self).tallies_exact() ==> final(self).tallies_exact())
                },
                Err(e) => {
                    &&& *final(self) == *old(self)
                    &&& (e == LedgerError::EmptyInput <==> new_topic@.len() == 0)
                    &&& (e == LedgerError::NotFound <==> new_topic@.len() > 0 && !old(
                        self,
                    ).discussions().dom().contains(discussion_id))
                    &&& (e == LedgerError::Forbidden <==> new_topic@.len() > 0 && old(
                        self,
                    ).discussions().dom().contains(discussion_id) && old(
                        self,
                    ).discussions()[discussion_id].created_by != username@)
                },
            },
    {
        if new_topic.as_str().unicode_len() == 0 {
            return Err(LedgerError::EmptyInput);
        }
        let bytes = match map_get(&self.discussions, discussion_id) {
            Some(b) => b,
            None => {
                return Err(LedgerError::NotFound);
            },
        };
        let mut discussion = {
            proof {
                lemma_disc_injective();
            }
            let d = decode_discussion(&bytes);
            proof {
                lemma_model_at(
                    map_contents(self.discussions),
                    disc_okf(),
                    disc_encf(),
                    discussion_id,
                    d@,
                );
            }
            d
        };
        if !(discussion.created_by == username) {
            return Err(LedgerError::Forbidden);
        }
        discussion.topic = new_topic;
        let new_bytes = encode_discussion(&discussion);
        proof {
            lemma_disc_injective();
            lemma_model_insert(
                map_contents(self.discussions),
                disc_okf(),
                disc_encf(),
                discussion_id,
                discussion@,
            );
            assert(disc_encf()(discussion@) == enc_discussion(discussion@));
        }
        map_insert(&mut self.discussions, discussion_id, new_bytes);
        proof {
            assert(self.discussions() == old(self).discussions().insert(
                discussion_id,
                discussion@,
            ));
            assert(self.users() == old(self).users());
            assert(self.votes() == old(self).votes());
            assert(self.next_id() == old(self).next_id());
            let dnew = self.discussions();
            assert forall|k: u64| #[trigger] dnew.dom().contains(k) implies dnew[k].id == k
                && dnew[k].topic.len() > 0 && k < self.next_id() && dnew[k].upvotes
                + dnew[k].downvotes <= self.next_id() by {
                if k != discussion_id {
                    assert(old(self).discussions().dom().contains(k));
                } else {
                    assert(old(self).discussions().dom().contains(discussion_id));
                }
            }
            assert(self.wf());
        }
        Ok(())
    }

    /// The stored tally of a discussion. Succeeds exactly when the
    /// discussion exists.
    pub fn get_vote_count(&self, discussion_id: u64) -> (r: Result<(u64, u64), LedgerError>)
        requires
            self.wf(),
        ensures
            r matches Ok(_) <==> self.discussions().dom().contains(discussion_id),
            match r {
                Ok(t) => t.0 == self.discussions()[discussion_id].upvotes && t.1
                    == self.discussions()[discussion_id].downvotes,
                Err(e) => e == LedgerError::NotFound,
            },
    {
        let bytes = match map_get(&self.discussions, discussion_id) {
            Some(b) => b,
            None => {
                return Err(LedgerError::NotFound);
            },
        };
        proof {
            lemma_disc_injective();
        }
        let d = decode_discussion(&bytes);
        proof {
            lemma_model_at(
                map_contents(self.discussions),
                disc_okf(),
                disc_encf(),
                discussion_id,
                d@,
            );
        }
        Ok((d.upvotes, d.downvotes))
    }

    /// All users, in ascending identifier order.
    #[verifier::loop_isolation(false)]
    #[verifier::rlimit(30)]
    pub fn get_users(&self) -> (r: Vec<User>)
        requires
            self.wf(),
        ensures
            forall|i: int|
                0 <= i < r@.len() ==> self.users().dom().contains(#[trigger] r@[i]@.id)
                    && self.users()[r@[i]@.id] == r@[i]@,
            forall|k: u64|
                #[trigger] self.users().dom().contains(k) ==> exists|i: int|
                    0 <= i < r@.len() && r@[i]@.id == k,
            forall|i: int, j: int| 0 <= i < j < r@.len() ==> r@[i]@.id < r@[j]@.id,
    {
        let entries = map_entries(&self.users);
        let n = entries.len();
        let mut out: Vec<User> = Vec::new();
        let mut i: usize = 0;
        while i < n
            invariant
                i <= n,
                out@.len() == i,
                forall|j: int| 0 <= j < i ==> out@[j]@.id == entries@[j].0,
                forall|j: int|
                    0 <= j < i ==> self.users().dom().contains(#[trigger] out@[j]@.id)
                        && self.users()[out@[j]@.id] == out@[j]@,
            decreases n - i,
        {
            let key = entries[i].0;
            let bytes = &entries[i].1;
            proof {
                assert(map_contents(self.users).contains_pair(key, bytes@));
            }
            let u = decode_user(bytes);
            proof {
                lemma_user_injective();
                lemma_model_at(map_contents(self.users), user_okf(), user_encf(), key, u@);
                assert(self.users().dom().contains(key));
                assert(u@.id == key);
            }
            out.push(u);
            proof {
                assert(out@[i as int]@ == u@);
            }
            i += 1;
        }
        proof {
            assert forall|k: u64| #[trigger] self.users().dom().contains(k) implies exists|i: int|
                0 <= i < out@.len() && out@[i]@.id == k by {
                assert(map_contents(self.users).dom().contains(k));
                let j = choose|j: int| 0 <= j < entries@.len() && entries@[j].0 == k;
                assert(out@[j]@.id == k);
            }
            assert forall|i: int, j: int|
                0 <= i < j < out@.len() implies out@[i]@.id < out@[j]@.id by {
                assert(out@[i]@.id == entries@[i].0);
                assert(out@[j]@.id == entries@[j].0);
            }
        }
        out
    }

    /// All discussions, in ascending identifier order.
    #[verifier::loop_isolation(false)]
    #[verifier::rlimit(30)]
    pub fn get_discussions(&self) -> (r: Vec<Discussion>)
        requires
            self.wf(),
        ensures
            forall|i: int|
                0 <= i < r@.len() ==> self.discussions().dom().contains(#[trigger] r@[i]@.id)
                    && self.discussions()[r@[i]@.id] == r@[i]@,
            forall|k: u64|
                #[trigger] self.discussions().dom().contains(k) ==> exists|i: int|
                    0 <= i < r@.len() && r@[i]@.id == k,
            forall|i: int, j: int| 0 <= i < j < r@.len() ==> r@[i]@.id < r@[j]@.id,
    {
        let entries = map_entries(&self.discussions);
        let n = entries.len();
        let mut out: Vec<Discussion> = Vec::new();
        let mut i: usize = 0;
        while i < n
            invariant
                i <= n,
                out@.len() == i,
                forall|j: int| 0 <= j < i ==> out@[j]@.id == entries@[j].0,
                forall|j: int|
                    0 <= j < i ==> self.discussions().dom().contains(#[trigger] out@[j]@.id)
                        && self.discussions()[out@[j]@.id] == out@[j]@,
            decreases n - i,
        {
            let key = entries[i].0;
            let bytes = &entries[i].1;
            proof {
                assert(map_contents(self.discussions).contains_pair(key, bytes@));
                lemma_disc_injective();
            }
            let d = decode_discussion(bytes);
            proof {
                lemma_model_at(map_contents(self.discussions), disc_okf(), disc_encf(), key, d@);
                assert(self.discussions().dom().contains(key));
                assert(d@.id == key);
            }
            out.push(d);
            proof {
                assert(out@[i as int]@ == d@);
            }
            i += 1;
        }
        proof {
            assert forall|k: u64|
                #[trigger] self.discussions().dom().contains(k) implies exists|i: int|
                0 <= i < out@.len() && out@[i]@.id == k by {
                assert(map_contents(self.discussions).dom().contains(k));
                let j = choose|j: int| 0 <= j < entries@.len() && entries@[j].0 == k;
                assert(out@[j]@.id == k);
            }
            assert forall|i: int, j: int|
                0 <= i < j < out@.len() implies out@[i]@.id < out@[j]@.id by {
                assert(out@[i]@.id == entries@[i].0);
                assert(out@[j]@.id == entries@[j].0);
            }
        }
        out
    }

    /// The identifier of the user carrying this username, where one does.
    pub open spec fn user_id_of(self, name: Seq<char>) -> u64 {
        choose|k: u64|
            #[trigger] self.users().dom().contains(k) && self.users()[k].username == name
    }

    /// The identifier of this user's live vote on this discussion, where one
    /// exists.
    pub open spec fn vote_id_of(self, name: Seq<char>, discussion_id: u64) -> u64 {
        choose|k: u64|
            #[trigger] self.votes().dom().contains(k) && self.votes()[k].by == name
                && self.votes()[k].discussion_id == discussion_id
    }

    /// Looks up the caller's live vote on the discussion.
    #[verifier::loop_isolation(false)]
    fn find_vote(&self, username: &String, discussion_id: u64) -> (r: Option<(u64, Vote)>)
        requires
            self.wf(),
        ensures
            match r {
                Option::Some(p) => self.votes().dom().contains(p.0) && self.votes()[p.0]
                    == p.1@ && p.1@.by == username@ && p.1@.discussion_id == discussion_id,
                Option::None => !self.has_vote(username@, discussion_id),
            },
    {
        let entries = map_entries(&self.votes);
        let n = entries.len();
        let mut i: usize = 0;
        while i < n
            invariant
                i <= n,
                forall|j: int|
                    0 <= j < i ==> !(self.votes()[entries@[j].0].by == username@
                        && self.votes()[entries@[j].0].discussion_id == discussion_id),
            decreases n - i,
        {
            let key = entries[i].0;
            let v = {
                let bytes = &entries[i].1;
                proof {
                    assert(map_contents(self.votes).contains_pair(key, bytes@));
                    lemma_vote_injective();
                }
                let v = decode_vote(bytes);
                proof {
                    lemma_model_at(map_contents(self.votes), vote_okf(), vote_encf(), key, v@);
                }
                v
            };
            if v.by == *username && v.discussion_id == discussion_id {
                return Some((key, v));
            }
            i += 1;
        }
        proof {
            assert forall|k: u64|
                #[trigger] self.votes().dom().contains(k) implies !(self.votes()[k].by
                == username@ && self.votes()[k].discussion_id == discussion_id) by {
                assert(map_contents(self.votes).dom().contains(k));
                let j = choose|j: int| 0 <= j < entries@.len() && entries@[j].0 == k;
                assert(!(self.votes()[entries@[j].0].by == username@
                    && self.votes()[entries@[j].0].discussion_id == discussion_id));
            }
        }
        None
    }

    /// Casts a ballot on a discussion and raises the matching tally.
    /// Succeeds exactly when the voter is registered, has no live vote on
    /// the discussion, and the discussion exists. Failing to find the
    /// discussion still leaves the new ballot recorded, as the stored state
    /// has always done.
    #[verifier::rlimit(60)]
    pub fn vote_discussion(
        &mut self,
        vote_type: VoteType,
        discussion_id: u64,
        username: String,
        now: u64,
    ) -> (r: Result<(), LedgerError>)
        requires
            old(self).wf(),
            old(self).next_id() < u64::MAX,
        ensures
            final(self).wf(),
            r matches Ok(_) <==> (old(self).user_named(username@) && !old(self).has_vote(
                username@,
                discussion_id,
            ) && old(self).discussions().dom().contains(discussion_id)),
            ({
                let vote = VoteV {
                    id: old(self).next_id(),
                    by: username@,
                    discussion_id,
                    vote_type,
                    created_at: now,
                };
                match r {
                    Ok(_) => {
                        &&& final(self).votes() == old(self).votes().insert(vote.id, vote)
                        &&& final(self).discussions() == old(self).discussions().insert(
                            discussion_id,
                            bump_tally(old(self).discussions()[discussion_id], vote_type),
                        )
                        &&& final(self).users() == old(self).users()
                        &&& final(self).next_id() == old(self).next_id() + 1
                        &&& (old(self).tallies_exact() ==> final(self).tallies_exact())
                    },
                    Err(e) => {
                        &&& (e == LedgerError::NotRegistered <==> !old(self).user_named(
                            username@,
                        ))
                        &&& (e == LedgerError::AlreadyVoted <==> old(self).user_named(username@)
                            && old(self).has_vote(username@, discussion_id))
                        &&& (e == LedgerError::NotFound <==> old(self).user_named(username@)
                            && !old(self).has_vote(username@, discussion_id) && !old(
                            self,
                        ).discussions().dom().contains(discussion_id))
                        &&& (e == LedgerError::NotRegistered || e == LedgerError::AlreadyVoted
                            ==> *final(self) == *old(self))
                        &&& (e == LedgerError::NotFound ==> final(self).votes() == old(
                            self,
                        ).votes().insert(vote.id, vote))
                        &&& (e == LedgerError::NotFound ==> final(self).discussions() == old(
                            self,
                        ).discussions())
                        &&& (e == LedgerError::NotFound ==> final(self).users() == old(
                            self,
                        ).users())
                        &&& (e == LedgerError::NotFound ==> final(self).next_id() == old(
                            self,
                        ).next_id() + 1)
                        &&& (e == LedgerError::NotFound && old(self).tallies_exact() ==> final(self).tallies_exact())
                    },
                }
            }),
    {
        if !self.is_user_registered(&username) {
            return Err(LedgerError::NotRegistered);
        }
        if let Some(_) = self.find_vote(&username, discussion_id) {
            return Err(LedgerError::AlreadyVoted);
        }
        let id = self.allocate_id();
        let vote = Vote { id, by: username, discussion_id, vote_type, created_at: now };
        let bytes = encode_vote(&vote);
        let ghost vold = old(self).votes();
        proof {
            assert(vold.dom() =~= map_contents(old(self).votes).dom());
            assert(!vold.dom().contains(id));
            lemma_vote_injective();
            lemma_model_insert(map_contents(self.votes), vote_okf(), vote_encf(), id, vote@);
            assert(vote_encf()(vote@) == enc_vote(vote@));
        }
        map_insert(&mut self.votes, id, bytes);
        proof {
            assert(self.votes() == vold.insert(id, vote@));
            let vnew = self.votes();
            assert forall|k1: u64, k2: u64|
                vnew.dom().contains(k1) && vnew.dom().contains(k2) && k1 != k2 implies !(
            vnew[k1].by == vnew[k2].by && vnew[k1].discussion_id == vnew[k2].discussion_id) by {
                if k1 == id {
                    assert(vold.dom().contains(k2));
                } else if k2 == id {
                    assert(vold.dom().contains(k1));
                } else {
                    assert(vold.dom().contains(k1) && vold.dom().contains(k2));
                }
            }
        }
        let disc_bytes = match map_get(&self.discussions, discussion_id) {
            Some(b) => b,
            None => {
                proof {
                    assert(self.wf());
                    if old(self).tallies_exact() {
                        assert forall|dd: u64|
                            #[trigger] self.discussions().dom().contains(dd) implies
                        self.discussions()[dd].upvotes == vote_count(
                            self.votes(),
                            dd,
                            VoteType::Upvote,
                        ) && self.discussions()[dd].downvotes == vote_count(
                            self.votes(),
                            dd,
                            VoteType::Downvote,
                        ) by {
                            lemma_vote_count_insert(vold, id, vote@, dd, VoteType::Upvote);
                            lemma_vote_count_insert(vold, id, vote@, dd, VoteType::Downvote);
                        }
                        assert(self.tallies_exact());
                    }
                }
                return Err(LedgerError::NotFound);
            },
        };
        let mut discussion = {
            proof {
                lemma_disc_injective();
            }
            let d = decode_discussion(&disc_bytes);
            proof {
                lemma_model_at(
                    map_contents(self.discussions),
                    disc_okf(),
                    disc_encf(),
                    discussion_id,
                    d@,
                );
            }
            d
        };
        match vote_type {
            VoteType::Upvote => {
                discussion.upvotes = discussion.upvotes + 1;
            },
            VoteType::Downvote => {
                discussion.downvotes = discussion.downvotes + 1;
            },
        }
        let new_disc_bytes = encode_discussion(&discussion);
        let ghost dold = old(self).discussions();
        proof {
            assert(discussion@ == bump_tally(dold[discussion_id], vote_type));
            lemma_disc_injective();
            lemma_model_insert(
                map_contents(self.discussions),
                disc_okf(),
                disc_encf(),
                discussion_id,
                discussion@,
            );
            assert(disc_encf()(discussion@) == enc_discussion(discussion@));
        }
        map_insert(&mut self.discussions, discussion_id, new_disc_bytes);
        proof {
            assert(self.discussions() == dold.insert(discussion_id, discussion@));
            let dnew = self.discussions();
            assert forall|k: u64| #[trigger] dnew.dom().contains(k) implies dnew[k].id == k
                && dnew[k].topic.len() > 0 && k < self.next_id() && dnew[k].upvotes
                + dnew[k].downvotes <= self.next_id() by {
                if k != discussion_id {
                    assert(dold.dom().contains(k));
                } else {
                    assert(dold.dom().contains(discussion_id));
                }
            }
            assert(self.wf());
            if old(self).tallies_exact() {
                assert forall|dd: u64|
                    #[trigger] self.discussions().dom().contains(dd) implies
                self.discussions()[dd].upvotes == vote_count(self.votes(), dd, VoteType::Upvote)
                    && self.discussions()[dd].downvotes == vote_count(
                    self.votes(),
                    dd,
                    VoteType::Downvote,
                ) by {
                    lemma_vote_count_insert(vold, id, vote@, dd, VoteType::Upvote);
                    lemma_vote_count_insert(vold, id, vote@, dd, VoteType::Downvote);
                    if dd != discussion_id {
                        assert(dold.dom().contains(dd));
                    } else {
                        assert(dold.dom().contains(discussion_id));
                    }
                }
                assert(self.tallies_exact());
            }
        }
        Ok(())
    }

    /// Withdraws the caller's live vote on a discussion and lowers the
    /// matching tally, never below zero. Succeeds exactly when the voter is
    /// registered, holds a live vote there, and the discussion exists.
    /// Failing to find the discussion still leaves the ballot removed, as
    /// the stored state has always done.
    #[verifier::rlimit(60)]
    pub fn remove_vote(&mut self, discussion_id: u64, username: String) -> (r: Result<
        (),
        LedgerError,
    >)
        requires
            old(self).wf(),
        ensures
            final(self).wf(),
            r matches Ok(_) <==> (old(self).user_named(username@) && old(self).has_vote(
                username@,
                discussion_id,
            ) && old(self).discussions().dom().contains(discussion_id)),
            ({
                let vid = old(self).vote_id_of(username@, discussion_id);
                match r {
                    Ok(_) => {
                        &&& final(self).votes() == old(self).votes().remove(vid)
                        &&& final(self).discussions() == old(self).discussions().insert(
                            discussion_id,
                            drop_tally(
                                old(self).discussions()[discussion_id],
                                old(self).votes()[vid].vote_type,
                            ),
                        )
                        &&& final(self).users() == old(self).users()
                        &&& final(self).next_id() == old(self).next_id()
                        &&& (old(self).tallies_exact() ==> final(self).tallies_exact())
                    },
                    Err(e) => {
                        &&& (e == LedgerError::NotRegistered <==> !old(self).user_named(
                            username@,
                        ))
                        &&& (e == LedgerError::NotFound <==> old(self).user_named(username@) && (
                        !old(self).has_vote(username@, discussion_id) || !old(
                            self,
                        ).discussions().dom().contains(discussion_id)))
                        &&& (e == LedgerError::NotRegistered || (e == LedgerError::NotFound
                            && !old(self).has_vote(username@, discussion_id)) ==> *final(self)
                            == *old(self))
                        &&& (e == LedgerError::NotFound && old(self).has_vote(
                            username@,
                            discussion_id,
                        ) ==> final(self).votes() == old(self).votes().remove(vid))
                        &&& (e == LedgerError::NotFound && old(self).has_vote(
                            username@,
                            discussion_id,
                        ) ==> final(self).discussions() == old(self).discussions())
                        &&& (e == LedgerError::NotFound && old(self).has_vote(
                            username@,
                            discussion_id,
                        ) ==> final(self).users() == old(self).users())
                        &&& (e == LedgerError::NotFound && old(self).has_vote(
                            username@,
                            discussion_id,
                        ) ==> final(self).next_id() == old(self).next_id())
                        &&& (e == LedgerError::NotFound && old(self).has_vote(
                            username@,
                            discussion_id,
                        ) && old(self).tallies_exact() ==> final(self).tallies_exact())
                    },
                }
            }),
    {
        if !self.is_user_registered(&username) {
            return Err(LedgerError::NotRegistered);
        }
        let (vote_id, vote) = match self.find_vote(&username, discussion_id) {
            Some(p) => p,
            None => {
                return Err(LedgerError::NotFound);
            },
        };
        proof {
            let vid = old(self).vote_id_of(username@, discussion_id);
            assert(old(self).votes().dom().contains(vote_id) && old(self).votes()[vote_id].by
                == username@ && old(self).votes()[vote_id].discussion_id == discussion_id);
            assert(old(self).votes().dom().contains(vid) && old(self).votes()[vid].by
                == username@ && old(self).votes()[vid].discussion_id == discussion_id);
            assert(vid == vote_id);
        }
        let ghost vold = old(self).votes();
        proof {
            assert(vold.dom() =~= map_contents(old(self).votes).dom());
            lemma_vote_injective();
            lemma_model_remove(map_contents(self.votes), vote_okf(), vote_encf(), vote_id);
        }
        map_remove(&mut self.votes, vote_id);
        proof {
            assert(self.votes() == vold.remove(vote_id));
            assert(self.users() == old(self).users());
            assert(self.discussions() == old(self).discussions());
            assert(self.next_id() == old(self).next_id());
            let vnew = self.votes();
            assert forall|k: u64| #[trigger] vnew.dom().contains(k) implies vnew[k].id == k && k
                < self.next_id() by {
                assert(vold.dom().contains(k));
            }
            assert forall|k1: u64, k2: u64|
                vnew.dom().contains(k1) && vnew.dom().contains(k2) && k1 != k2 implies !(
            vnew[k1].by == vnew[k2].by && vnew[k1].discussion_id == vnew[k2].discussion_id) by {
                assert(vold.dom().contains(k1) && vold.dom().contains(k2));
            }
        }
        let disc_bytes = match map_get(&self.discussions, discussion_id) {
            Some(b) => b,
            None => {
                proof {
                    assert(self.wf());
                    if old(self).tallies_exact() {
                        assert forall|dd: u64|
                            #[trigger] self.discussions().dom().contains(dd) implies
                        self.discussions()[dd].upvotes == vote_count(
                            self.votes(),
                            dd,
                            VoteType::Upvote,
                        ) && self.discussions()[dd].downvotes == vote_count(
                            self.votes(),
                            dd,
                            VoteType::Downvote,
                        ) by {
                            lemma_vote_count_remove(vold, vote_id, dd, VoteType::Upvote);
                            lemma_vote_count_remove(vold, vote_id, dd, VoteType::Downvote);
                        }
                        assert(self.tallies_exact());
                    }
                }
                return Err(LedgerError::NotFound);
            },
        };
        let mut discussion = {
            proof {
                lemma_disc_injective();
            }
            let d = decode_discussion(&disc_bytes);
            proof {
                lemma_model_at(
                    map_contents(self.discussions),
                    disc_okf(),
                    disc_encf(),
                    discussion_id,
                    d@,
                );
            }
            d
        };
        match vote.vote_type {
            VoteType::Upvote => {
                discussion.upvotes = if discussion.upvotes > 0 {
                    discussion.upvotes - 1
                } else {
                    0
                };
            },
            VoteType::Downvote => {
                discussion.downvotes = if discussion.downvotes > 0 {
                    discussion.downvotes - 1
                } else {
                    0
                };
            },
        }
        let new_disc_bytes = encode_discussion(&discussion);
        let ghost dold = old(self).discussions();
        proof {
            assert(vote@ == vold[vote_id]);
            assert(discussion@ == drop_tally(dold[discussion_id], vold[vote_id].vote_type));
            lemma_disc_injective();
            lemma_model_insert(
                map_contents(self.discussions),
                disc_okf(),
                disc_encf(),
                discussion_id,
                discussion@,
            );
            assert(disc_encf()(discussion@) == enc_discussion(discussion@));
        }
        map_insert(&mut self.discussions, discussion_id, new_disc_bytes);
        proof {
            assert(self.discussions() == dold.insert(discussion_id, discussion@));
            let dnew = self.discussions();
            assert forall|k: u64| #[trigger] dnew.dom().contains(k) implies dnew[k].id == k
                && dnew[k].topic.len() > 0 && k < self.next_id() && dnew[k].upvotes
                + dnew[k].downvotes <= self.next_id() by {
                if k != discussion_id {
                    assert(dold.dom().contains(k));
                } else {
                    assert(dold.dom().contains(discussion_id));
                }
            }
            assert(self.wf());
            if old(self).tallies_exact() {
                lemma_vote_count_at_least_one(vold, vote_id);
                assert forall|dd: u64|
                    #[trigger] self.discussions().dom().contains(dd) implies
                self.discussions()[dd].upvotes == vote_count(self.votes(), dd, VoteType::Upvote)
                    && self.discussions()[dd].downvotes == vote_count(
                    self.votes(),
                    dd,
                    VoteType::Downvote,
                ) by {
                    lemma_vote_count_remove(vold, vote_id, dd, VoteType::Upvote);
                    lemma_vote_count_remove(vold, vote_id, dd, VoteType::Downvote);
                    if dd != discussion_id {
                        assert(dold.dom().contains(dd));
                    } else {
                        assert(dold.dom().contains(discussion_id));
                    }
                }
                assert(self.tallies_exact());
            }
        }
        Ok(())
    }

    /// The identifiers of all live votes cast by this user.
    #[verifier::loop_isolation(false)]
    fn vote_ids_by(&self, username: &String) -> (r: Vec<u64>)
        requires
            self.wf(),
        ensures
            forall|j: int|
                0 <= j < r@.len() ==> self.votes().dom().contains(#[trigger] r@[j])
                    && self.votes()[r@[j]].by == username@,
            forall|k: u64|
                #[trigger] self.votes().dom().contains(k) && self.votes()[k].by == username@
                    ==> seq_has(r@, r@.len() as int, k),
    {
        let entries = map_entries(&self.votes);
        let n = entries.len();
        let mut ids: Vec<u64> = Vec::new();
        let mut i: usize = 0;
        while i < n
            invariant
                i <= n,
                forall|j: int|
                    0 <= j < ids@.len() ==> self.votes().dom().contains(#[trigger] ids@[j])
                        && self.votes()[ids@[j]].by == username@,
                forall|j: int|
                    0 <= j < i ==> (self.votes()[entries@[j].0].by == username@ ==> seq_has(
                        ids@,
                        ids@.len() as int,
                        entries@[j].0,
                    )),
            decreases n - i,
        {
            let key = entries[i].0;
            let v = {
                let bytes = &entries[i].1;
                proof {
                    assert(map_contents(self.votes).contains_pair(key, bytes@));
                    lemma_vote_injective();
                }
                let v = decode_vote(bytes);
                proof {
                    lemma_model_at(map_contents(self.votes), vote_okf(), vote_encf(), key, v@);
                }
                v
            };
            let ghost ids0 = ids@;
            if v.by == *username {
                ids.push(key);
                proof {
                    assert(ids@ == ids0.push(key));
                    assert(ids@[ids@.len() as int - 1] == key);
                    assert(seq_has(ids@, ids@.len() as int, key));
                    assert forall|e: u64| seq_has(ids0, ids0.len() as int, e) implies seq_has(
                        ids@,
                        ids@.len() as int,
                        e,
                    ) by {
                        let l = choose|l: int| 0 <= l < ids0.len() && ids0[l] == e;
                        assert(ids@[l] == e);
                    }
                }
            } else {
                proof {
                    assert(self.votes()[key].by != username@);
                }
            }
            i += 1;
        }
        proof {
            assert forall|k: u64|
                #[trigger] self.votes().dom().contains(k) && self.votes()[k].by
                == username@ implies seq_has(ids@, ids@.len() as int, k) by {
                assert(map_contents(self.votes).dom().contains(k));
                let j = choose|j: int| 0 <= j < entries@.len() && entries@[j].0 == k;
                assert(self.votes()[entries@[j].0].by == username@);
            }
        }
        ids
    }

    /// The identifiers of all discussions this user created, in ascending
    /// order.
    #[verifier::loop_isolation(false)]
    fn discussion_ids_created_by(&self, username: &String) -> (r: Vec<u64>)
        requires
            self.wf(),
        ensures
            forall|j: int|
                0 <= j < r@.len() ==> self.discussions().dom().contains(#[trigger] r@[j])
                    && self.discussions()[r@[j]].created_by == username@,
            forall|k: u64|
                #[trigger] self.discussions().dom().contains(k)
                    && self.discussions()[k].created_by == username@ ==> seq_has(
                    r@,
                    r@.len() as int,
                    k,
                ),
            forall|l1: int, l2: int| 0 <= l1 < l2 < r@.len() ==> r@[l1] < r@[l2],
    {
        let entries = map_entries(&self.discussions);
        let n = entries.len();
        let mut ids: Vec<u64> = Vec::new();
        let mut i: usize = 0;
        while i < n
            invariant
                i <= n,
                forall|j: int|
                    0 <= j < ids@.len() ==> self.discussions().dom().contains(#[trigger] ids@[j])
                        && self.discussions()[ids@[j]].created_by == username@,
                forall|j: int|
                    0 <= j < i ==> (self.discussions()[entries@[j].0].created_by == username@
                        ==> seq_has(ids@, ids@.len() as int, entries@[j].0)),
                forall|l: int|
                    0 <= l < ids@.len() ==> exists|j: int|
                        0 <= j < i && entries@[j].0 == #[trigger] ids@[l],
                forall|l1: int, l2: int| 0 <= l1 < l2 < ids@.len() ==> ids@[l1] < ids@[l2],
            decreases n - i,
        {
            let key = entries[i].0;
            let d = {
                let bytes = &entries[i].1;
                proof {
                    assert(map_contents(self.discussions).contains_pair(key, bytes@));
                    lemma_disc_injective();
                }
                let d = decode_discussion(bytes);
                proof {
                    lemma_model_at(
                        map_contents(self.discussions),
                        disc_okf(),
                        disc_encf(),
                        key,
                        d@,
                    );
                }
                d
            };
            let ghost ids0 = ids@;
            if d.created_by == *username {
                proof {
                    assert forall|l: int| 0 <= l < ids@.len() implies ids@[l] < key by {
                        let j = choose|j: int| 0 <= j < i && entries@[j].0 == ids@[l];
                        assert(entries@[j].0 < entries@[i as int].0);
                    }
                }
                ids.push(key);
                proof {
                    assert(ids@ == ids0.push(key));
                    assert(ids@[ids@.len() as int - 1] == key);
                    assert(seq_has(ids@, ids@.len() as int, key));
                    assert forall|e: u64| seq_has(ids0, ids0.len() as int, e) implies seq_has(
                        ids@,
                        ids@.len() as int,
                        e,
                    ) by {
                        let l = choose|l: int| 0 <= l < ids0.len() && ids0[l] == e;
                        assert(ids@[l] == e);
                    }
                }
            } else {
                proof {
                    assert(self.discussions()[key].created_by != username@);
                }
            }
            i += 1;
        }
        proof {
            assert forall|k: u64|
                #[trigger] self.discussions().dom().contains(k)
                    && self.discussions()[k].created_by == username@ implies seq_has(
                ids@,
                ids@.len() as int,
                k,
            ) by {
                assert(map_contents(self.discussions).dom().contains(k));
                let j = choose|j: int| 0 <= j < entries@.len() && entries@[j].0 == k;
                assert(self.discussions()[entries@[j].0].created_by == username@);
            }
        }
        ids
    }

    /// Deletes a user: removes the user record and every ballot they cast,
    /// and reassigns the discussions they created to the anonymization
    /// sentinel. Succeeds exactly when the username is registered. The
    /// removed ballots' weight deliberately stays in the discussion tallies.
    #[verifier::rlimit(100)]
    #[verifier::loop_isolation(false)]
    pub fn delete_user(&mut self, username: String) -> (r: Result<(), LedgerError>)
        requires
            old(self).wf(),
        ensures
            final(self).wf(),
            r matches Ok(_) <==> old(self).user_named(username@),
            match r {
                Ok(_) => {
                    &&& final(self).users() == old(self).users().remove(
                        old(self).user_id_of(username@),
                    )
                    &&& final(self).votes() == votes_not_by(old(self).votes(), username@)
                    &&& final(self).discussions() == anonymize_by(
                        old(self).discussions(),
                        username@,
                    )
                    &&& final(self).next_id() == old(self).next_id()
                },
                Err(e) => {
                    &&& e == LedgerError::NotFound
                    &&& *final(self) == *old(self)
                },
            },
    {
        let (user_id, _user) = match self.find_user(&username) {
            Some(p) => p,
            None => {
                return Err(LedgerError::NotFound);
            },
        };
        proof {
            let uid = old(self).user_id_of(username@);
            assert(old(self).users().dom().contains(user_id) && old(
                self,
            ).users()[user_id].username == username@);
            assert(old(self).users().dom().contains(uid) && old(self).users()[uid].username
                == username@);
            assert(uid == user_id);
            lemma_user_injective();
            lemma_model_remove(map_contents(self.users), user_okf(), user_encf(), user_id);
        }
        map_remove(&mut self.users, user_id);
        let ghost ustart = old(self).users().remove(user_id);
        let ghost vstart = old(self).votes();
        let ghost dstart = old(self).discussions();
        proof {
            assert(self.users() == ustart);
            assert(self.votes() == vstart);
            assert(self.discussions() == dstart);
            assert(self.next_id() == old(self).next_id());
            let unew = self.users();
            assert forall|k: u64| #[trigger] unew.dom().contains(k) implies unew[k].id == k
                && unew[k].username.len() > 0 && k < self.next_id() by {
                assert(old(self).users().dom().contains(k));
            }
            assert(vstart.dom() =~= map_contents(old(self).votes).dom());
        }
        let vote_ids = self.vote_ids_by(&username);
        let m = vote_ids.len();
        let mut t: usize = 0;
        while t < m
            invariant
                t <= m,
                self.users() == ustart,
                self.discussions() == dstart,
                self.next_id() == old(self).next_id(),
                table_inv(map_contents(self.users), user_okf(), user_encf()),
                table_inv(map_contents(self.discussions), disc_okf(), disc_encf()),
                table_inv(map_contents(self.votes), vote_okf(), vote_encf()),
                forall|k: u64|
                    #[trigger] self.votes().dom().contains(k) ==> vstart.dom().contains(k)
                        && self.votes()[k] == vstart[k],
                forall|k: u64|
                    vstart.dom().contains(k) && !self.votes().dom().contains(k)
                        ==> vstart[k].by == username@,
                forall|j: int| 0 <= j < t ==> !self.votes().dom().contains(#[trigger] vote_ids@[j]),
            decreases m - t,
        {
            let vid = vote_ids[t];
            let ghost vcur = self.votes();
            proof {
                assert(vstart.dom().contains(vid) && vstart[vid].by == username@);
                lemma_vote_injective();
                lemma_model_remove(map_contents(self.votes), vote_okf(), vote_encf(), vid);
            }
            map_remove(&mut self.votes, vid);
            proof {
                assert(self.votes() == vcur.remove(vid));
            }
            t += 1;
        }
        proof {
            assert forall|k: u64|
                #[trigger] votes_not_by(vstart, username@).dom().contains(k) implies
            self.votes().dom().contains(k) by {
                if !self.votes().dom().contains(k) {
                    assert(vstart[k].by == username@);
                }
            }
            assert forall|k: u64| #[trigger] self.votes().dom().contains(k) implies votes_not_by(
                vstart,
                username@,
            ).dom().contains(k) by {
                if vstart[k].by == username@ {
                    assert(seq_has(vote_ids@, vote_ids@.len() as int, k));
                    let j = choose|j: int| 0 <= j < vote_ids@.len() && vote_ids@[j] == k;
                    assert(!self.votes().dom().contains(vote_ids@[j]));
                }
            }
            assert(self.votes() =~= votes_not_by(vstart, username@));
            let vnew = self.votes();
            assert forall|k: u64| #[trigger] vnew.dom().contains(k) implies vnew[k].id == k && k
                < self.next_id() by {
                assert(vstart.dom().contains(k));
            }
            assert forall|k1: u64, k2: u64|
                vnew.dom().contains(k1) && vnew.dom().contains(k2) && k1 != k2 implies !(
            vnew[k1].by == vnew[k2].by && vnew[k1].discussion_id == vnew[k2].discussion_id) by {
                assert(vstart.dom().contains(k1) && vstart.dom().contains(k2));
            }
        }
        let disc_ids = self.discussion_ids_created_by(&username);
        let m2 = disc_ids.len();
        let mut t2: usize = 0;
        while t2 < m2
            invariant
                t2 <= m2,
                self.users() == ustart,
                self.votes() == votes_not_by(vstart, username@),
                self.next_id() == old(self).next_id(),
                table_inv(map_contents(self.users), user_okf(), user_encf()),
                table_inv(map_contents(self.votes), vote_okf(), vote_encf()),
                table_inv(map_contents(self.discussions), disc_okf(), disc_encf()),
                self.discussions().dom() == dstart.dom(),
                forall|k: u64|
                    #[trigger] dstart.dom().contains(k) ==> self.discussions()[k] == (
                    if seq_has(disc_ids@, t2 as int, k) {
                        anonymize_one(dstart[k], username@)
                    } else {
                        dstart[k]
                    }),
            decreases m2 - t2,
        {
            let kk = disc_ids[t2];
            proof {
                assert(dstart.dom().contains(kk));
                assert(!seq_has(disc_ids@, t2 as int, kk)) by {
                    if seq_has(disc_ids@, t2 as int, kk) {
                        let j = choose|j: int| 0 <= j < t2 && disc_ids@[j] == kk;
                        assert(disc_ids@[j] < disc_ids@[t2 as int]);
                    }
                }
                assert(self.discussions()[kk] == dstart[kk]);
            }
            let bytes = match map_get(&self.discussions, kk) {
                Some(b) => b,
                None => {
                    proof {
                        assert(self.discussions().dom().contains(kk));
                        assert(false);
                    }
                    unreached()
                },
            };
            let mut d = {
                proof {
                    lemma_disc_injective();
                }
                let d = decode_discussion(&bytes);
                proof {
                    lemma_model_at(map_contents(self.discussions), disc_okf(), disc_encf(), kk, d@);
                }
                d
            };
            d.created_by = "Anonymous".to_owned();
            let new_bytes = encode_discussion(&d);
            let ghost dcur = self.discussions();
            proof {
                assert(d@ == anonymize_one(dstart[kk], username@));
                lemma_disc_injective();
                lemma_model_insert(map_contents(self.discussions), disc_okf(), disc_encf(), kk, d@);
                assert(disc_encf()(d@) == enc_discussion(d@));
            }
            map_insert(&mut self.discussions, kk, new_bytes);
            t2 += 1;
            proof {
                assert(self.discussions() == dcur.insert(kk, d@));
                assert(self.discussions().dom() =~= dstart.dom());
                assert forall|k: u64| #[trigger] dstart.dom().contains(k) implies
                self.discussions()[k] == (
                if seq_has(disc_ids@, t2 as int, k) {
                    anonymize_one(dstart[k], username@)
                } else {
                    dstart[k]
                }) by {
                    if k == kk {
                        assert(seq_has(disc_ids@, t2 as int, k));
                    } else {
                        if seq_has(disc_ids@, t2 as int, k) {
                            let j = choose|j: int| 0 <= j < t2 && disc_ids@[j] == k;
                            assert(seq_has(disc_ids@, t2 as int - 1, k));
                        }
                    }
                }
            }
        }
        proof {
            assert forall|k: u64| #[trigger] dstart.dom().contains(k) implies
            self.discussions()[k] == anonymize_one(dstart[k], username@) by {
                if dstart[k].created_by == username@ {
                    assert(seq_has(disc_ids@, disc_ids@.len() as int, k));
                } else {
                    if seq_has(disc_ids@, m2 as int, k) {
                        let j = choose|j: int| 0 <= j < m2 && disc_ids@[j] == k;
                        assert(dstart[disc_ids@[j]].created_by == username@);
                    }
                }
            }
            assert(self.discussions() =~= anonymize_by(dstart, username@));
            let dnew = self.discussions();
            assert forall|k: u64| #[trigger] dnew.dom().contains(k) implies dnew[k].id == k
                && dnew[k].topic.len() > 0 && k < self.next_id() && dnew[k].upvotes
                + dnew[k].downvotes <= self.next_id() by {
                assert(dstart.dom().contains(k));
                assert(dnew[k] == anonymize_one(dstart[k], username@));
            }
            let unew = self.users();
            assert forall|k1: u64, k2: u64|
                unew.dom().contains(k1) && unew.dom().contains(k2) && k1 != k2 implies
            unew[k1].username != unew[k2].username by {
                assert(old(self).users().dom().contains(k1) && old(self).users().dom().contains(
                    k2,
                ));
            }
            assert forall|k: u64| #[trigger] unew.dom().contains(k) implies unew[k].id == k
                && unew[k].username.len() > 0 && k < self.next_id() by {
                assert(old(self).users().dom().contains(k));
            }
            assert(self.wf());
        }
        Ok(())
    }
}

/// Law: in a well-formed ledger no two live user records share a username,
/// whatever sequence of operations produced the ledger.
pub proof fn lemma_usernames_unique(l: Ledger, k1: u64, k2: u64)
    requires
        l.wf(),
        l.users().dom().contains(k1),
        l.users().dom().contains(k2),
        k1 != k2,
    ensures
        l.users()[k1].username != l.users()[k2].username,
{
}

/// Law: in a well-formed ledger no two live votes share the same voter and
/// discussion, whatever sequence of operations produced the ledger.
pub proof fn lemma_vote_pairs_unique(l: Ledger, k1: u64, k2: u64)
    requires
        l.wf(),
        l.votes().dom().contains(k1),
        l.votes().dom().contains(k2),
        k1 != k2,
    ensures
        !(l.votes()[k1].by == l.votes()[k2].by && l.votes()[k1].discussion_id
            == l.votes()[k2].discussion_id),
{
}

/// Law: every identifier of every entity kind sits strictly below the
/// counter, so the counter hands out strictly increasing identifiers shared
/// across all kinds.
pub proof fn lemma_ids_below_counter(l: Ledger, k: u64)
    requires
        l.wf(),
        l.users().dom().contains(k) || l.discussions().dom().contains(k)
            || l.votes().dom().contains(k),
    ensures
        k < l.next_id(),
{
}

/// Law (the deliberate deviation from exact tallies): a user deletion keeps
/// every discussion and both of its tallies, even though the user's ballots
/// are removed.
pub proof fn lemma_deletion_keeps_tallies(discs: Map<u64, DiscussionV>, name: Seq<char>, k: u64)
    requires
        discs.dom().contains(k),
    ensures
        anonymize_by(discs, name).dom() == discs.dom(),
        anonymize_by(discs, name)[k].upvotes == discs[k].upvotes,
        anonymize_by(discs, name)[k].downvotes == discs[k].downvotes,
        anonymize_by(discs, name)[k].topic == discs[k].topic,
{
    assert(anonymize_by(discs, name).dom() =~= discs.dom());
}

} // verus!

