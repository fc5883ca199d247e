//! Choosing among the moves that a board allows, for play by hand: first
//! the vehicle, then, where the vehicle can slide to more than one place,
//! the distance.

use crate::tile::{decode_id, Move};
use vstd::prelude::*;

verus! {

/// The names of the vehicles of `moves`, one for each move and in the
/// order of the moves.
pub fn vehicle_names(moves: &Vec<Move>) -> (names: Vec<String>)
    ensures
        names@.len() == moves@.len(),
        forall|i: int| 0 <= i < moves@.len() ==> (#[trigger] names@[i])@ == decode_id(
            moves@[i].vehicle_id,
        ),
{
    let mut names: Vec<String> = Vec::new();
    let mut i: usize = 0;
    while i < moves.len()
        invariant
            i <= moves@.len(),
            names@.len() == i,
            forall|k: int| 0 <= k < i ==> (#[trigger] names@[k])@ == decode_id(moves@[k].vehicle_id),
        decreases moves@.len() - i,
    {
        names.push(moves[i].get_id_string());
        i = i + 1;
    }
    names
}

/// The moves of `moves` that slide the vehicle called `name`, in the order
/// of `moves`.
pub fn moves_of(moves: &Vec<Move>, name: &str) -> (chosen: Vec<Move>)
    ensures
        chosen@ == moves@.filter(|m: Move| decode_id(m.vehicle_id) == name@),
{
    let wanted = name.to_owned();
    let mut chosen: Vec<Move> = Vec::new();
    let mut i: usize = 0;
    assert(moves@.take(0) =~= Seq::<Move>::empty());
    while i < moves.len()
        invariant
            i <= moves@.len(),
            wanted@ == name@,
            chosen@ == moves@.take(i as int).filter(|m: Move| decode_id(m.vehicle_id) == name@),
        decreases moves@.len() - i,
    {
        let m = moves[i];
        proof {
            assert(moves@.take(i + 1).drop_last() =~= moves@.take(i as int));
            reveal(Seq::filter);
        }
        if m.get_id_string() == wanted {
            chosen.push(m);
        }
        i = i + 1;
    }
    assert(moves@.take(moves@.len() as int) =~= moves@);
    chosen
}

/// The distances of `moves`, in the order of the moves.
pub fn distances(moves: &Vec<Move>) -> (all: Vec<i8>)
    ensures
        all@ == moves@.map_values(|m: Move| m.direction),
{
    let mut all: Vec<i8> = Vec::new();
    let mut i: usize = 0;
    while i < moves.len()
        invariant
            i <= moves@.len(),
            all@ == moves@.take(i as int).map_values(|m: Move| m.direction),
        decreases moves@.len() - i,
    {
        all.push(moves[i].direction);
        i = i + 1;
        assert(all@ =~= moves@.take(i as int).map_values(|m: Move| m.direction));
    }
    assert(moves@.take(moves@.len() as int) =~= moves@);
    all
}

/// The first move of `moves` that slides by `distance`, if there is one.
pub fn move_by(moves: &Vec<Move>, distance: i8) -> (found: Option<Move>)
    ensures
        match found {
            Some(m) => exists|i: int|
                0 <= i < moves@.len() && #[trigger] moves@[i] == m && m.direction == distance
                    && forall|k: int| 0 <= k < i ==> (#[trigger] moves@[k]).direction != distance,
            None => forall|k: int| 0 <= k < moves@.len() ==> (#[trigger] moves@[k]).direction
                != distance,
        },
{
    let mut i: usize = 0;
    while i < moves.len()
        invariant
            i <= moves@.len(),
            forall|k: int| 0 <= k < i ==> (#[trigger] moves@[k]).direction != distance,
        decreases moves@.len() - i,
    {
        if moves[i].direction == distance {
            return Some(moves[i]);
        }
        i = i + 1;
    }
    None
}

} // verus!
