//! The phases of the game and the requests to change between them.

use vstd::prelude::*;

verus! {

/// The phase that the game is in.
#[derive(Debug, Copy, Clone, Eq, PartialEq, Hash, Structural)]
pub enum GameState {
    StartMenu,
    PlayingGame,
    Settings,
    Save,
    GenerateNewGame,
    LoadingAssets,
}

/// A request to change the phase of the game.
#[derive(Debug, Copy, Clone, Eq, PartialEq, Structural)]
pub struct ChangeGameStateEvent(pub GameState);

/// The phase that a tick's requests schedule: the first one that differs from
/// the current phase, if there is one.
pub open spec fn scheduled_state(events: Seq<ChangeGameStateEvent>, current: GameState) -> Option<
    GameState,
>
    decreases events.len(),
{
    if events.len() == 0 {
        None
    } else if events[0].0 != current {
        Some(events[0].0)
    } else {
        scheduled_state(events.drop_first(), current)
    }
}

/// No request after the first that asks for a change asks for a change too.
pub open spec fn at_most_one_change(events: Seq<ChangeGameStateEvent>, current: GameState) -> bool {
    forall|i: int, j: int|
        0 <= i < j < events.len() && (#[trigger] events[i]).0 != current ==> (
        #[trigger] events[j]).0 == current
}

/// Goes through the requests of one tick and returns the phase to change to, if
/// any of them asks for another phase than the current one.
///
/// Only one change can be scheduled in a tick: a second request for a change is
/// not allowed.
pub fn check_game_state_change(
    read_game_state: &Vec<ChangeGameStateEvent>,
    game_state: &GameState,
) -> (scheduled: Option<GameState>)
    requires
        at_most_one_change(read_game_state@, *game_state),
    ensures
        scheduled == scheduled_state(read_game_state@, *game_state),
        scheduled matches Some(next) ==> next != *game_state,
{
    let mut scheduled: Option<GameState> = None;
    let mut i: usize = 0;
    while i < read_game_state.len()
        invariant
            i <= read_game_state@.len(),
            at_most_one_change(read_game_state@, *game_state),
            scheduled == scheduled_state(read_game_state@.take(i as int), *game_state),
            scheduled matches Some(next) ==> next != *game_state,
            scheduled is Some ==> exists|k: int|
                0 <= k < i && (#[trigger] read_game_state@[k]).0 != *game_state,
        decreases read_game_state@.len() - i,
    {
        let ev = read_game_state[i];
        proof {
            lemma_scheduled_one_more(read_game_state@.take(i as int), ev, *game_state);
            assert(read_game_state@.take(i as int + 1) =~= read_game_state@.take(i as int).push(
                ev,
            ));
        }
        if *game_state != ev.0 {
            proof {
                if scheduled is Some {
                    let k = choose|k: int|
                        0 <= k < i && (#[trigger] read_game_state@[k]).0 != *game_state;
                    assert(read_game_state@[i as int].0 == *game_state);
                }
            }
            scheduled = Some(ev.0);
        }
        i += 1;
    }
    proof {
        assert(read_game_state@.take(i as int) =~= read_game_state@);
    }
    scheduled
}

/// One more request at the end changes what is scheduled only where nothing was
/// scheduled before.
pub proof fn lemma_scheduled_one_more(
    events: Seq<ChangeGameStateEvent>,
    ev: ChangeGameStateEvent,
    current: GameState,
)
    ensures
        scheduled_state(events.push(ev), current) == (if scheduled_state(events, current) is Some {
            scheduled_state(events, current)
        } else if ev.0 != current {
            Some(ev.0)
        } else {
            None
        }),
    decreases events.len(),
{
    if events.len() == 0 {
        assert(events.push(ev).drop_first() =~= events);
    } else {
        assert(events.push(ev).drop_first() =~= events.drop_first().push(ev));
        if events[0].0 == current {
            lemma_scheduled_one_more(events.drop_first(), ev, current);
        }
    }
}

} // verus!
