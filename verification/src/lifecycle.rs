//! The level lifecycle controller.
//!
//! A single state machine drives level progression: `Standby` (waiting for a
//! start trigger), `InProgress` (gameplay live), `Complete` (goal reached;
//! teardown and optional save pending). All scattered reactions of the game
//! are centralised in one transition function from state and event to next
//! state and a list of effects; the surrounding runtime performs the
//! effects. Save requests never change the state, so a failed save cannot
//! block the next automatic transition.

use vstd::prelude::*;

use crate::names::goal_name;
use crate::store::{has_comp, valid_id, EntityId, EntityStore, SlotModel};

verus! {

/// Time units the controller dwells in `Complete` before moving on, and in
/// `Standby` before loading the next level.
pub const DWELL_UNITS: u64 = 2;

/// The lifecycle state of the active game session.
#[derive(Clone, Copy, PartialEq, Eq, Structural, Debug, Hash, Default)]
pub enum GameState {
    /// No active level; waiting for a start trigger.
    #[default]
    Standby,
    /// A level is loaded (or loading) and gameplay is live.
    InProgress,
    /// The goal was reached; teardown and optional save are pending.
    Complete,
}

/// Notification that the current level was completed.
#[derive(Clone, Copy, PartialEq, Eq, Structural, Debug)]
pub struct LevelCompletEvent;

/// Notification that every level has been completed.
#[derive(Clone, Copy, PartialEq, Eq, Structural, Debug)]
pub struct GameCompleteEvent;

/// External request to persist the current level under a chosen name.
#[derive(Clone, PartialEq, Eq, Debug)]
pub struct SaveLevelEvent {
    pub name: String,
}

/// Request to materialize the given level.
#[derive(Clone, Copy, PartialEq, Eq, Structural, Debug)]
pub struct LoadLevelEvent {
    pub level: usize,
}

/// A contact notification from the physics collaborator: a new or ended
/// contact between two entities.
#[derive(Clone, Copy, PartialEq, Eq, Structural, Debug)]
pub enum CollisionEvent {
    Started(EntityId, EntityId),
    Stopped(EntityId, EntityId),
}

/// An external stimulus consumed by the controller.
#[derive(Clone, PartialEq, Eq, Debug)]
pub enum GameEvent {
    /// Explicit start trigger (begin the session from `Standby`).
    Start,
    /// Time advanced by the given number of units.
    Tick { units: u64 },
    /// A collision notification.
    Collision(CollisionEvent),
    /// A save request from the UI.
    Save(SaveLevelEvent),
}

/// An action the surrounding runtime must perform for the controller.
#[derive(Clone, PartialEq, Eq, Debug)]
pub enum Effect {
    /// Issue a load request for the given level.
    Load(LoadLevelEvent),
    /// Emit the level-complete notification.
    LevelComplete(LevelCompletEvent),
    /// Emit the game-complete notification.
    GameComplete(GameCompleteEvent),
    /// Tear down the current level root subtree.
    TeardownLevel,
    /// Persist the current level under the requested name.
    SaveLevel(SaveLevelEvent),
}

/// The level lifecycle controller: exactly one per game session.
#[derive(Clone, PartialEq, Eq, Debug)]
pub struct LevelLifecycle {
    pub state: GameState,
    /// The level currently played, or, in `Standby`, the one to load next.
    pub current_level: usize,
    /// Total number of levels in the session.
    pub level_count: usize,
    /// Time units left before the next automatic transition fires.
    pub dwell_remaining: u64,
    /// Every level has been completed; the session is over.
    pub game_over: bool,
}

/// Whether a collision event reports a new contact that involves an entity
/// tagged as a goal.
pub open spec fn collision_goal_hit(s: Seq<SlotModel>, ev: GameEvent) -> bool {
    match ev {
        GameEvent::Collision(CollisionEvent::Started(a, b)) => {
            ||| (valid_id(s, a) && has_comp(s[a.index as int].comps, goal_name()))
            ||| (valid_id(s, b) && has_comp(s[b.index as int].comps, goal_name()))
        },
        _ => false,
    }
}

impl LevelLifecycle {
    /// Controller invariant: the level counter stays within the session and
    /// the dwell timer within its window; a finished session rests in
    /// `Complete`.
    pub open spec fn wf(self) -> bool {
        &&& 1 <= self.current_level <= self.level_count + 1
        &&& 1 <= self.level_count < usize::MAX
        &&& self.dwell_remaining <= DWELL_UNITS
        &&& (self.game_over ==> self.state == GameState::Complete)
        &&& (self.current_level > self.level_count ==> self.game_over)
    }

    /// The controller at session start: standing by to load the first level.
    pub open spec fn initial(level_count: usize) -> LevelLifecycle {
        LevelLifecycle {
            state: GameState::Standby,
            current_level: 1,
            level_count,
            dwell_remaining: DWELL_UNITS,
            game_over: false,
        }
    }

    /// The single transition function of the state machine: the controller
    /// after consuming `ev`, where `goal_hit` says whether the event is a
    /// new contact involving a goal.
    pub open spec fn step_state(self, ev: GameEvent, goal_hit: bool) -> LevelLifecycle {
        match ev {
            GameEvent::Start => {
                if self.state == GameState::Standby && !self.game_over {
                    LevelLifecycle {
                        state: GameState::InProgress,
                        dwell_remaining: DWELL_UNITS,
                        ..self
                    }
                } else {
                    self
                }
            },
            GameEvent::Tick { units } => {
                if self.state == GameState::InProgress || self.game_over {
                    self
                } else if units < self.dwell_remaining {
                    LevelLifecycle { dwell_remaining: (self.dwell_remaining - units) as u64, ..self }
                } else if self.state == GameState::Standby {
                    LevelLifecycle {
                        state: GameState::InProgress,
                        dwell_remaining: DWELL_UNITS,
                        ..self
                    }
                } else {
                    // Complete: dwell over, move on or finish the session.
                    if self.current_level + 1 > self.level_count {
                        LevelLifecycle {
                            current_level: (self.current_level + 1) as usize,
                            game_over: true,
                            dwell_remaining: 0,
                            ..self
                        }
                    } else {
                        LevelLifecycle {
                            state: GameState::Standby,
                            current_level: (self.current_level + 1) as usize,
                            dwell_remaining: DWELL_UNITS,
                            ..self
                        }
                    }
                }
            },
            GameEvent::Collision(_) => {
                if self.state == GameState::InProgress && goal_hit {
                    LevelLifecycle {
                        state: GameState::Complete,
                        dwell_remaining: DWELL_UNITS,
                        ..self
                    }
                } else {
                    self
                }
            },
            GameEvent::Save(_) => self,
        }
    }

    /// The effects the runtime must perform for the transition on `ev`.
    pub open spec fn step_effects(self, ev: GameEvent, goal_hit: bool) -> Seq<Effect> {
        match ev {
            GameEvent::Start => {
                if self.state == GameState::Standby && !self.game_over {
                    seq![Effect::Load(LoadLevelEvent { level: self.current_level })]
                } else {
                    Seq::empty()
                }
            },
            GameEvent::Tick { units } => {
                if self.state == GameState::InProgress || self.game_over || units
                    < self.dwell_remaining {
                    Seq::empty()
                } else if self.state == GameState::Standby {
                    seq![Effect::Load(LoadLevelEvent { level: self.current_level })]
                } else {
                    if self.current_level + 1 > self.level_count {
                        seq![Effect::GameComplete(GameCompleteEvent)]
                    } else {
                        seq![Effect::TeardownLevel]
                    }
                }
            },
            GameEvent::Collision(_) => {
                if self.state == GameState::InProgress && goal_hit {
                    seq![Effect::LevelComplete(LevelCompletEvent)]
                } else {
                    Seq::empty()
                }
            },
            GameEvent::Save(e) => seq![Effect::SaveLevel(e)],
        }
    }

    /// A fresh controller for a session of `level_count` levels.
    pub fn new(level_count: usize) -> (r: LevelLifecycle)
        requires
            1 <= level_count < usize::MAX,
        ensures
            r.wf(),
            r == LevelLifecycle::initial(level_count),
    {
        LevelLifecycle {
            state: GameState::Standby,
            current_level: 1,
            level_count,
            dwell_remaining: DWELL_UNITS,
            game_over: false,
        }
    }

    /// The current state, read-only.
    pub fn state(&self) -> (r: GameState)
        ensures
            r == self.state,
    {
        self.state
    }

    /// Consumes one event: applies at most one transition and returns the
    /// effects the runtime must perform, in order. Goal contact is resolved
    /// against the entity store's component records.
    pub fn step(&mut self, store: &EntityStore, ev: GameEvent) -> (r: Vec<Effect>)
        requires
            old(self).wf(),
            store.wf(),
        ensures
            final(self).wf(),
            *final(self) == old(self).step_state(ev, collision_goal_hit(store@, ev)),
            r@ == old(self).step_effects(ev, collision_goal_hit(store@, ev)),
    {
        let ghost g = collision_goal_hit(store@, ev);
        let mut out: Vec<Effect> = Vec::new();
        match ev {
            GameEvent::Start => {
                if matches!(self.state, GameState::Standby) && !self.game_over {
                    self.state = GameState::InProgress;
                    self.dwell_remaining = DWELL_UNITS;
                    out.push(Effect::Load(LoadLevelEvent { level: self.current_level }));
                }
            },
            GameEvent::Tick { units } => {
                if matches!(self.state, GameState::InProgress) || self.game_over {
                } else if units < self.dwell_remaining {
                    self.dwell_remaining = self.dwell_remaining - units;
                } else if matches!(self.state, GameState::Standby) {
                    self.state = GameState::InProgress;
                    self.dwell_remaining = DWELL_UNITS;
                    out.push(Effect::Load(LoadLevelEvent { level: self.current_level }));
                } else {
                    if self.current_level >= self.level_count {
                        self.current_level = self.current_level + 1;
                        self.game_over = true;
                        self.dwell_remaining = 0;
                        out.push(Effect::GameComplete(GameCompleteEvent));
                    } else {
                        self.state = GameState::Standby;
                        self.current_level = self.current_level + 1;
                        self.dwell_remaining = DWELL_UNITS;
                        out.push(Effect::TeardownLevel);
                    }
                }
            },
            GameEvent::Collision(c) => {
                let hit: bool;
                match c {
                    CollisionEvent::Started(a, b) => {
                        let goal = crate::names::goal_name_vec();
                        let a_hit = store.is_valid(a) && store.has_component(
                            a,
                            goal.as_slice(),
                        );
                        let b_hit = store.is_valid(b) && store.has_component(
                            b,
                            goal.as_slice(),
                        );
                        hit = a_hit || b_hit;
                    },
                    CollisionEvent::Stopped(_, _) => {
                        hit = false;
                    },
                }
                proof {
                    assert(hit == g);
                }
                if matches!(self.state, GameState::InProgress) && hit {
                    self.state = GameState::Complete;
                    self.dwell_remaining = DWELL_UNITS;
                    out.push(Effect::LevelComplete(LevelCompletEvent));
                }
            },
            GameEvent::Save(e) => {
                out.push(Effect::SaveLevel(e));
            },
        }
        out
    }
}

/// Repeated goal collisions while already `Complete` change nothing and emit
/// nothing: the goal transition is idempotent, so the level-complete
/// notification is emitted exactly once.
pub proof fn lemma_goal_collision_idempotent(
    c: LevelLifecycle,
    ev: GameEvent,
    g1: bool,
    g2: bool,
)
    requires
        c.state == GameState::InProgress,
        ev is Collision,
        g1,
    ensures
        c.step_state(ev, g1).state == GameState::Complete,
        c.step_effects(ev, g1) == seq![Effect::LevelComplete(LevelCompletEvent)],
        c.step_state(ev, g1).step_state(ev, g2) == c.step_state(ev, g1),
        c.step_state(ev, g1).step_effects(ev, g2) == Seq::<Effect>::empty(),
{
}

/// More generally: any collision event consumed outside `InProgress` is
/// ignored entirely.
pub proof fn lemma_collision_ignored_outside_in_progress(
    c: LevelLifecycle,
    ev: GameEvent,
    g: bool,
)
    requires
        c.state != GameState::InProgress,
        ev is Collision,
    ensures
        c.step_state(ev, g) == c,
        c.step_effects(ev, g) == Seq::<Effect>::empty(),
{
}

/// A save request never changes the controller: whatever becomes of the save
/// (including a serialization failure), the next event is handled exactly as
/// if the save had not been requested, so a failed save cannot block the
/// next scheduled transition.
pub proof fn lemma_save_does_not_block(
    c: LevelLifecycle,
    save: GameEvent,
    next: GameEvent,
    g1: bool,
    g2: bool,
)
    requires
        save is Save,
    ensures
        c.step_state(save, g1) == c,
        c.step_state(save, g1).step_state(next, g2) == c.step_state(next, g2),
        c.step_state(save, g1).step_effects(next, g2) == c.step_effects(next, g2),
{
}

} // verus!
