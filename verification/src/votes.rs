//! The votes that a block leaves on chain for others to scrape.

use crate::primitives::{
    checked_views, set_views, BackingRecord, CheckedDisputeStatementSet, DisputeStatementSet,
    DisputeStatementSetView, SessionIndex,
};
use vstd::prelude::*;

verus! {

/// Scraped on-chain data: backing votes and resolved disputes.
#[derive(Clone, Debug, PartialEq, Eq)]
pub struct ScrapedOnChainVotes {
    /// The session in which the block was included.
    pub session: SessionIndex,
    /// The candidates that were backed, with the votes for each.
    pub backing_validators_per_candidate: Vec<BackingRecord>,
    /// The dispute statements that were imported.
    pub disputes: Vec<DisputeStatementSet>,
}

/// What [`ScrapedOnChainVotes`] hold.
pub struct ScrapedOnChainVotesView {
    pub session: SessionIndex,
    pub backing_validators_per_candidate: Seq<BackingRecord>,
    pub disputes: Seq<DisputeStatementSetView>,
}

impl View for ScrapedOnChainVotes {
    type V = ScrapedOnChainVotesView;

    open spec fn view(&self) -> ScrapedOnChainVotesView {
        ScrapedOnChainVotesView {
            session: self.session,
            backing_validators_per_candidate: self.backing_validators_per_candidate@,
            disputes: set_views(self.disputes@),
        }
    }
}

/// What is on chain, if anything is.
pub open spec fn votes_view(votes: Option<ScrapedOnChainVotes>) -> Option<
    ScrapedOnChainVotesView,
> {
    match votes {
        Some(votes) => Some(votes@),
        None => None,
    }
}

/// New disputes, beside the backing votes that are on chain.
pub open spec fn with_disputes(
    votes: Option<ScrapedOnChainVotesView>,
    session: SessionIndex,
    disputes: Seq<DisputeStatementSetView>,
) -> Option<ScrapedOnChainVotesView> {
    Some(
        ScrapedOnChainVotesView {
            session,
            backing_validators_per_candidate: match votes {
                Some(votes) => votes.backing_validators_per_candidate,
                None => Seq::empty(),
            },
            disputes,
        },
    )
}

/// New backing votes, beside the disputes that are on chain.
pub open spec fn with_backings(
    votes: Option<ScrapedOnChainVotesView>,
    session: SessionIndex,
    backing_validators_per_candidate: Seq<BackingRecord>,
) -> Option<ScrapedOnChainVotesView> {
    Some(
        ScrapedOnChainVotesView {
            session,
            backing_validators_per_candidate,
            disputes: match votes {
                Some(votes) => votes.disputes,
                None => Seq::empty(),
            },
        },
    )
}

/// Updates the disputes among the on-chain votes.
pub fn set_scrapable_on_chain_disputes(
    votes: &mut Option<ScrapedOnChainVotes>,
    session: SessionIndex,
    checked_disputes: &Vec<CheckedDisputeStatementSet>,
)
    ensures
        votes_view(*final(votes)) == with_disputes(
            votes_view(*old(votes)),
            session,
            checked_views(checked_disputes@),
        ),
        *final(votes) matches Some(now) && now.session == session && now.disputes@.len()
            == checked_disputes@.len() && (forall|k: int|
            0 <= k < checked_disputes@.len() ==> (#[trigger] now.disputes@[k])@
                == checked_disputes@[k].set@) && now.backing_validators_per_candidate@
            == match *old(votes) {
            Some(before) => before.backing_validators_per_candidate@,
            None => Seq::empty(),
        },
{
    let mut disputes: Vec<DisputeStatementSet> = Vec::new();
    let mut k: usize = 0;
    while k < checked_disputes.len()
        invariant
            k <= checked_disputes@.len(),
            set_views(disputes@) =~= checked_views(checked_disputes@.take(k as int)),
        decreases checked_disputes@.len() - k,
    {
        let ghost before = disputes@;
        let set = checked_disputes[k].set.clone();
        disputes.push(set);
        proof {
            let wanted = checked_views(checked_disputes@.take(k as int));
            assert(set_views(disputes@) =~= set_views(before).push(set@));
            assert(checked_views(checked_disputes@.take(k + 1)) =~= wanted.push(set@));
        }
        k = k + 1;
    }
    proof {
        assert(checked_disputes@.take(k as int) =~= checked_disputes@);
        let views = set_views(disputes@);
        assert(views.len() == disputes@.len());
        assert(checked_views(checked_disputes@).len() == checked_disputes@.len());
        assert forall|k: int| 0 <= k < checked_disputes@.len() implies (#[trigger] disputes@[k])@
            == checked_disputes@[k].set@ by {
            assert(views[k] == checked_views(checked_disputes@)[k]);
        }
    }
    let backing_validators_per_candidate = match votes.take() {
        Some(votes) => votes.backing_validators_per_candidate,
        None => Vec::new(),
    };
    *votes = Some(ScrapedOnChainVotes { session, backing_validators_per_candidate, disputes });
}

/// Updates the backing votes among the on-chain votes.
pub fn set_scrapable_on_chain_backings(
    votes: &mut Option<ScrapedOnChainVotes>,
    session: SessionIndex,
    backing_validators_per_candidate: Vec<BackingRecord>,
)
    ensures
        votes_view(*final(votes)) == with_backings(
            votes_view(*old(votes)),
            session,
            backing_validators_per_candidate@,
        ),
        *final(votes) matches Some(now) && now.session == session
            && now.backing_validators_per_candidate@ == backing_validators_per_candidate@
            && set_views(now.disputes@) == match *old(votes) {
            Some(before) => set_views(before.disputes@),
            None => Seq::empty(),
        },
{
    let disputes = match votes.take() {
        Some(votes) => votes.disputes,
        None => Vec::new(),
    };
    *votes = Some(ScrapedOnChainVotes { session, backing_validators_per_candidate, disputes });
    assert(set_views(Seq::<DisputeStatementSet>::empty()) =~= Seq::empty());
}

/// Updating one kind of votes leaves the other as it was, so that after both updates
/// both are new, in whatever order the two were made.
pub proof fn votes_are_updated_independently(
    votes: Option<ScrapedOnChainVotesView>,
    session: SessionIndex,
    disputes: Seq<DisputeStatementSetView>,
    backings: Seq<BackingRecord>,
)
    ensures
        with_backings(with_disputes(votes, session, disputes), session, backings) == Some(
            ScrapedOnChainVotesView {
                session,
                backing_validators_per_candidate: backings,
                disputes,
            },
        ),
        with_disputes(with_backings(votes, session, backings), session, disputes)
            == with_backings(with_disputes(votes, session, disputes), session, backings),
{
}

/// What new disputes and new backing votes leave on chain: the new ones, the session, and of
/// the other kind what was there, or nothing if nothing was.
pub proof fn updates_replace_one_kind(
    votes: Option<ScrapedOnChainVotesView>,
    session: SessionIndex,
    disputes: Seq<DisputeStatementSetView>,
    backings: Seq<BackingRecord>,
)
    ensures
        with_disputes(votes, session, disputes) matches Some(now) && now.session == session
            && now.disputes == disputes && now.backing_validators_per_candidate == match votes {
            Some(before) => before.backing_validators_per_candidate,
            None => Seq::<BackingRecord>::empty(),
        },
        with_backings(votes, session, backings) matches Some(now) && now.session == session
            && now.backing_validators_per_candidate == backings && now.disputes == match votes {
            Some(before) => before.disputes,
            None => Seq::<DisputeStatementSetView>::empty(),
        },
{
}

/// What the view of votes on chain holds: the session, the backing votes, and the disputes.
pub proof fn views_of_votes_hold_every_field(votes: ScrapedOnChainVotes)
    ensures
        votes_view(None) is None,
        votes_view(Some(votes)) matches Some(v) && v.session == votes.session
            && v.backing_validators_per_candidate == votes.backing_validators_per_candidate@
            && v.disputes == set_views(votes.disputes@),
{
}

} // verus!
