//! The moves made on a board, as a chain that boards share.
//!
//! Each link holds one move and a counted reference to the links before it.
//! A clone of a board shares the whole chain, and a move adds one link in
//! front of it; no link is changed once it is made.

use crate::tile::Move;
use std::sync::Arc;
use vstd::prelude::*;

verus! {

/// The last move made and the chain of the moves before it.
#[derive(Debug)]
pub struct LinkedHistory {
    last_move: Move,
    next_link: Arc<Option<LinkedHistory>>,
}

/// The moves of a chain, oldest first.
pub closed spec fn chain_moves(chain: Option<LinkedHistory>) -> Seq<Move>
    decreases chain,
{
    match chain {
        None => Seq::empty(),
        Some(link) => chain_moves(*link.next_link).push(link.last_move),
    }
}

/// `Arc::clone`: a further reference to the same chain. The links are not
/// copied, only counted once more.
#[verifier::external_body]
pub(crate) fn share_history(chain: &Arc<Option<LinkedHistory>>) -> (shared: Arc<
    Option<LinkedHistory>,
>)
    ensures
        shared == *chain,
{
    Arc::clone(chain)
}

/// The chain without moves.
pub fn no_history() -> (chain: Arc<Option<LinkedHistory>>)
    ensures
        chain_moves(*chain) == Seq::<Move>::empty(),
{
    Arc::new(None)
}

/// The chain that `made` extends `chain` to. The links of `chain` are
/// shared, not copied.
pub fn extend_history(chain: Arc<Option<LinkedHistory>>, made: Move) -> (longer: Arc<
    Option<LinkedHistory>,
>)
    ensures
        chain_moves(*longer) == chain_moves(*chain).push(made),
{
    Arc::new(Some(LinkedHistory { last_move: made, next_link: chain }))
}

/// The moves of a chain, oldest first: the chain is walked from its newest
/// link to its oldest, and what was collected is turned round.
pub fn collect_history(chain: &Arc<Option<LinkedHistory>>) -> (moves: Vec<Move>)
    ensures
        moves@ == chain_moves(**chain),
{
    let mut newest_first: Vec<Move> = Vec::new();
    let mut link: &Option<LinkedHistory> = &**chain;
    loop
        invariant
            chain_moves(**chain) == chain_moves(*link) + newest_first@.reverse(),
        ensures
            chain_moves(**chain) == newest_first@.reverse(),
        decreases *link,
    {
        match link {
            None => {
                break ;
            },
            Some(node) => {
                let ghost collected = newest_first@;
                newest_first.push(node.last_move);
                assert(chain_moves(*node.next_link).push(node.last_move) + collected.reverse()
                    =~= chain_moves(*node.next_link) + newest_first@.reverse());
                link = &*node.next_link;
            },
        }
    }
    let mut moves: Vec<Move> = Vec::new();
    let mut left: usize = newest_first.len();
    while left > 0
        invariant
            left <= newest_first.len(),
            moves@ == newest_first@.reverse().subrange(0, newest_first.len() - left),
        decreases left,
    {
        left = left - 1;
        moves.push(newest_first[left]);
    }
    moves
}

} // verus!
