use event_trigger_action_system::{
    and, any_n, eq, gt, leq, lt, never, or,
    event_count, geq, none, sequence, Trigger, TriggerAction, TriggerConditionUpdate, TriggerEvent, Triggers,
    PROGRESS_UNIT,
};
use event_trigger_action_system::compiled::comparison_step;
use event_trigger_action_system::Comparison;
use std::cmp::Ordering;

#[derive(Debug, Clone, Ord, PartialOrd, Eq, PartialEq)]
enum GameAction {
    ActivateQuest { id: QuestHandle },
    CompleteQuest { id: QuestHandle },
    FailQuest { id: QuestHandle },
    ActivateMonster { id: MonsterHandle },
    DeactivateMonster { id: MonsterHandle },
}

#[derive(Debug, Eq, PartialEq)]
enum GameEvent {
    Action(GameAction),
    KilledMonster { id: MonsterHandle },
    FailedMonster { id: MonsterHandle },
    HealthChanged { health: usize },
    MonsterHealthChanged { id: MonsterHandle, health: usize },
}

#[derive(Debug, Clone, Ord, PartialOrd, Eq, PartialEq)]
enum GameEventIdentifier {
    Action(GameAction),
    KilledMonster { id: MonsterHandle },
    FailedMonster { id: MonsterHandle },
    HealthChanged,
    MonsterHealthChanged { id: MonsterHandle },
}

#[derive(Debug, Clone, Copy, Ord, PartialOrd, Eq, PartialEq)]
struct QuestHandle(usize);
#[derive(Debug, Clone, Copy, Ord, PartialOrd, Eq, PartialEq)]
struct MonsterHandle(usize);

impl GameAction {
    fn key(&self) -> u64 {
        let (kind, id) = match self {
            GameAction::ActivateQuest { id } => (0, id.0),
            GameAction::CompleteQuest { id } => (1, id.0),
            GameAction::FailQuest { id } => (2, id.0),
            GameAction::ActivateMonster { id } => (3, id.0),
            GameAction::DeactivateMonster { id } => (4, id.0),
        };
        (kind << 40) | id as u64
    }
}

impl GameEventIdentifier {
    /// An injective encoding of the identifier as a `u64`.
    fn key(&self) -> u64 {
        match self {
            GameEventIdentifier::Action(action) => (1 << 56) | action.key(),
            GameEventIdentifier::KilledMonster { id } => (2 << 56) | id.0 as u64,
            GameEventIdentifier::FailedMonster { id } => (3 << 56) | id.0 as u64,
            GameEventIdentifier::HealthChanged => 4 << 56,
            GameEventIdentifier::MonsterHealthChanged { id } => (5 << 56) | id.0 as u64,
        }
    }
}

impl TriggerAction for GameAction {}

impl GameEvent {
    fn game_identifier(&self) -> GameEventIdentifier {
        match self {
            GameEvent::Action(action) => GameEventIdentifier::Action(action.clone()),
            GameEvent::KilledMonster { id } => GameEventIdentifier::KilledMonster { id: *id },
            GameEvent::FailedMonster { id } => GameEventIdentifier::FailedMonster { id: *id },
            GameEvent::HealthChanged { .. } => GameEventIdentifier::HealthChanged,
            GameEvent::MonsterHealthChanged { id, .. } => GameEventIdentifier::MonsterHealthChanged { id: *id },
        }
    }

    fn closeness(&self, other: &Self, target_ordering: Ordering) -> Option<f64> {
        match (self, other) {
            (
                GameEvent::MonsterHealthChanged { id: id_self, .. },
                GameEvent::MonsterHealthChanged { id: id_other, .. },
            ) if id_self != id_other => None,
            (
                GameEvent::HealthChanged {
                    health: health_self,
                },
                GameEvent::HealthChanged {
                    health: health_other,
                },
            )
            | (
                GameEvent::MonsterHealthChanged {
                    health: health_self,
                    ..
                },
                GameEvent::MonsterHealthChanged {
                    health: health_other,
                    ..
                },
            ) => Some(
                match target_ordering {
                    Ordering::Less => (*health_other - 1) as f64 / *health_self as f64,
                    Ordering::Equal => (*health_self as f64 / *health_other as f64)
                        .min(*health_other as f64 / *health_self as f64),
                    Ordering::Greater => *health_self as f64 / (*health_other + 1) as f64,
                }
                .clamp(0.0, 1.0),
            ),
            _ => None,
        }
    }
}

impl TriggerEvent for GameEvent {
    type Action = GameAction;

    fn spec_identifier(&self) -> u64 {
        self.identifier()
    }

    fn spec_from_action(action: &GameAction) -> Self {
        Self::from_action(action)
    }

    fn spec_partial_cmp(&self, other: &Self) -> Option<Ordering> {
        self.partial_cmp(other)
    }

    fn partial_cmp_event(&self, other: &Self) -> Option<Ordering> {
        self.partial_cmp(other)
    }

    fn spec_cmp_progress(&self, other: &Self, target_ordering: Ordering) -> Option<u64> {
        self.partial_cmp_progress(other, target_ordering)
    }

    fn identifier(&self) -> u64 {
        self.game_identifier().key()
    }

    fn partial_cmp_progress(&self, other: &Self, target_ordering: Ordering) -> Option<u64> {
        self.closeness(other, target_ordering)
            .map(|closeness| (closeness * PROGRESS_UNIT as f64).round() as u64)
    }

    fn from_action(action: &GameAction) -> Self {
        GameEvent::Action(action.clone())
    }
}

impl PartialOrd for GameEvent {
    fn partial_cmp(&self, other: &Self) -> Option<Ordering> {
        match (self, other) {
            (
                GameEvent::MonsterHealthChanged { id: id_self, .. },
                GameEvent::MonsterHealthChanged { id: id_other, .. },
            ) if id_self != id_other => None,
            (
                GameEvent::HealthChanged {
                    health: health_self,
                },
                GameEvent::HealthChanged {
                    health: health_other,
                },
            )
            | (
                GameEvent::MonsterHealthChanged {
                    health: health_self,
                    ..
                },
                GameEvent::MonsterHealthChanged {
                    health: health_other,
                    ..
                },
            ) => Some(health_self.cmp(health_other)),
            _ => None,
        }
    }
}

/// A progress pair on the scale of whole units.
fn units(progress: (u64, u64)) -> (f64, f64) {
    (
        progress.0 as f64 / PROGRESS_UNIT as f64,
        progress.1 as f64 / PROGRESS_UNIT as f64,
    )
}

#[test]
fn tests_test_none() {
    let trigger = Trigger::<GameEvent, GameAction>::new("".to_string(), none(), vec![])
        .compile(&|x| x, &|x| x);
    assert_eq!(trigger.subscriptions(), vec![]);
    assert_eq!(units(trigger.progress()), (0.0, 0.0));
}

#[test]
fn tests_test_repeated_action() {
    let mut trigger = Trigger::new(
        "".to_string(),
        event_count(
            GameEvent::KilledMonster {
                id: MonsterHandle(0),
            },
            2,
        ),
        vec![GameAction::CompleteQuest { id: QuestHandle(0) }],
    )
    .compile(&|x| x, &|x| x);
    assert_eq!(
        trigger.subscriptions(),
        vec![GameEventIdentifier::KilledMonster {
            id: MonsterHandle(0)
        }
        .key()]
    );
    assert_eq!(units(trigger.progress()), (0.0, 2.0));
    assert!(!trigger.condition().completed());

    assert_eq!(
        trigger.execute_event(&GameEvent::FailedMonster {
            id: MonsterHandle(0)
        }),
        (vec![], vec![])
    );
    assert_eq!(units(trigger.progress()), (0.0, 2.0));
    assert!(!trigger.condition().completed());

    assert_eq!(
        trigger.execute_event(&GameEvent::KilledMonster {
            id: MonsterHandle(1)
        }),
        (vec![], vec![])
    );
    assert_eq!(units(trigger.progress()), (0.0, 2.0));
    assert!(!trigger.condition().completed());

    assert_eq!(
        trigger.execute_event(&GameEvent::KilledMonster {
            id: MonsterHandle(0)
        }),
        (vec![], vec![])
    );
    assert_eq!(units(trigger.progress()), (1.0, 2.0));
    assert!(!trigger.condition().completed());

    assert_eq!(
        trigger.execute_event(&GameEvent::KilledMonster {
            id: MonsterHandle(0)
        }),
        (
            vec![GameAction::CompleteQuest { id: QuestHandle(0) }],
            vec![TriggerConditionUpdate::Unsubscribe(
                GameEventIdentifier::KilledMonster {
                    id: MonsterHandle(0)
                }
                .key()
            )]
        )
    );
    assert_eq!(units(trigger.progress()), (2.0, 2.0));
    assert!(trigger.condition().completed());
}

#[test]
fn tests_test_composed_none() {
    let trigger = Trigger::<(), ()>::new(
        "".to_string(),
        none() & none() | none() & none() | none() & none(),
        vec![],
    )
    .compile(&|x| x, &|x| x);
    assert!(trigger.condition().completed());
    assert_eq!(units(trigger.progress()), (0.0, 0.0));
}

#[test]
fn tests_test_complex() {
    let mut triggers = Triggers::new(vec![
        Trigger::new(
            "".to_string(),
            none(),
            vec![GameAction::ActivateQuest { id: QuestHandle(0) }],
        ),
        Trigger::new(
            "".to_string(),
            event_count(
                GameEvent::KilledMonster {
                    id: MonsterHandle(0),
                },
                2,
            ),
            vec![GameAction::CompleteQuest { id: QuestHandle(0) }],
        ),
        Trigger::new(
            "".to_string(),
            event_count(
                GameEvent::KilledMonster {
                    id: MonsterHandle(0),
                },
                1,
            ),
            vec![GameAction::ActivateQuest { id: QuestHandle(1) }],
        ),
        Trigger::new(
            "".to_string(),
            event_count(
                GameEvent::Action(GameAction::ActivateQuest { id: QuestHandle(1) }),
                1,
            ),
            vec![GameAction::FailQuest { id: QuestHandle(2) }],
        ),
        Trigger::new(
            "".to_string(),
            none(),
            vec![GameAction::ActivateMonster {
                id: MonsterHandle(0),
            }],
        ),
        Trigger::new(
            "".to_string(),
            sequence(vec![
                event_count(
                    GameEvent::FailedMonster {
                        id: MonsterHandle(3),
                    },
                    1,
                ),
                event_count(
                    GameEvent::KilledMonster {
                        id: MonsterHandle(3),
                    },
                    1,
                ),
            ]),
            vec![GameAction::DeactivateMonster {
                id: MonsterHandle(3),
            }],
        ),
    ])
    .compile(&|x| x, &|x| x);
    assert_eq!(
        triggers.consume_action(),
        Some(GameAction::ActivateQuest { id: QuestHandle(0) })
    );
    assert_eq!(
        triggers.consume_action(),
        Some(GameAction::ActivateMonster {
            id: MonsterHandle(0)
        })
    );
    assert_eq!(triggers.consume_action(), None);
    triggers.execute_event(&GameEvent::FailedMonster {
        id: MonsterHandle(2),
    });
    assert_eq!(triggers.consume_action(), None);
    triggers.execute_event(&GameEvent::KilledMonster {
        id: MonsterHandle(0),
    });
    assert_eq!(
        triggers.consume_action(),
        Some(GameAction::ActivateQuest { id: QuestHandle(1) })
    );
    assert_eq!(
        triggers.consume_action(),
        Some(GameAction::FailQuest { id: QuestHandle(2) })
    );
    assert_eq!(triggers.consume_action(), None);
    triggers.execute_event(&GameEvent::KilledMonster {
        id: MonsterHandle(0),
    });
    assert_eq!(
        triggers.consume_action(),
        Some(GameAction::CompleteQuest { id: QuestHandle(0) })
    );
    assert_eq!(triggers.consume_action(), None);
    triggers.execute_event(&GameEvent::KilledMonster {
        id: MonsterHandle(3),
    });
    assert_eq!(triggers.consume_action(), None);
    triggers.execute_event(&GameEvent::FailedMonster {
        id: MonsterHandle(3),
    });
    assert_eq!(triggers.consume_action(), None);
    triggers.execute_event(&GameEvent::KilledMonster {
        id: MonsterHandle(3),
    });
    assert_eq!(
        triggers.consume_action(),
        Some(GameAction::DeactivateMonster {
            id: MonsterHandle(3)
        })
    );
    assert_eq!(triggers.consume_action(), None);
}

#[test]
fn tests_test_geq() {
    let mut triggers = Triggers::new(vec![
        Trigger::new(
            "".to_string(),
            geq(GameEvent::HealthChanged { health: 10 }),
            vec![GameAction::ActivateMonster {
                id: MonsterHandle(0),
            }],
        ),
        Trigger::new(
            "".to_string(),
            sequence(vec![
                event_count(
                    GameEvent::Action(GameAction::ActivateMonster {
                        id: MonsterHandle(0),
                    }),
                    1,
                ),
                geq(GameEvent::MonsterHealthChanged {
                    id: MonsterHandle(0),
                    health: 20,
                }),
            ]),
            vec![GameAction::DeactivateMonster {
                id: MonsterHandle(0),
            }],
        ),
    ])
    .compile(&|x| x, &|x| x);
    assert_eq!(triggers.consume_action(), None);

    triggers.execute_event(&GameEvent::KilledMonster {
        id: MonsterHandle(0),
    });
    assert_eq!(triggers.consume_action(), None);
    triggers.execute_event(&GameEvent::HealthChanged { health: 5 });
    assert_eq!(triggers.consume_action(), None);
    triggers.execute_event(&GameEvent::HealthChanged { health: 10 });
    assert_eq!(
        triggers.consume_action(),
        Some(GameAction::ActivateMonster {
            id: MonsterHandle(0)
        })
    );
    assert_eq!(triggers.consume_action(), None);
    triggers.execute_event(&GameEvent::MonsterHealthChanged {
        id: MonsterHandle(0),
        health: 15,
    });
    assert_eq!(triggers.consume_action(), None);
    triggers.execute_event(&GameEvent::MonsterHealthChanged {
        id: MonsterHandle(1),
        health: 30,
    });
    assert_eq!(triggers.consume_action(), None);
    triggers.execute_event(&GameEvent::MonsterHealthChanged {
        id: MonsterHandle(0),
        health: 23,
    });
    assert_eq!(
        triggers.consume_action(),
        Some(GameAction::DeactivateMonster {
            id: MonsterHandle(0)
        })
    );
    assert_eq!(triggers.consume_action(), None);
}

fn killed(id: usize) -> GameEvent {
    GameEvent::KilledMonster {
        id: MonsterHandle(id),
    }
}

fn failed(id: usize) -> GameEvent {
    GameEvent::FailedMonster {
        id: MonsterHandle(id),
    }
}

fn health(health: usize) -> GameEvent {
    GameEvent::HealthChanged { health }
}

fn quest(id: usize) -> GameAction {
    GameAction::ActivateQuest { id: QuestHandle(id) }
}

fn killed_key(id: usize) -> u64 {
    GameEventIdentifier::KilledMonster {
        id: MonsterHandle(id),
    }
    .key()
}

fn single(
    condition: event_trigger_action_system::TriggerCondition<GameEvent>,
    action: GameAction,
) -> event_trigger_action_system::CompiledTriggers<GameEvent> {
    Triggers::new(vec![Trigger::new("t".to_string(), condition, vec![action])]).compile(&|x| x, &|x| x)
}

fn progress_of(triggers: &event_trigger_action_system::CompiledTriggers<GameEvent>, index: usize) -> (f64, f64) {
    units(triggers.progress(event_trigger_action_system::TriggerHandle(index)).unwrap())
}

#[test]
fn scenario_immediate_fire() {
    let mut triggers = single(none(), quest(0));
    assert_eq!(triggers.consume_action(), Some(quest(0)));
    assert_eq!(triggers.consume_action(), None);
}

#[test]
fn scenario_count_based() {
    let mut triggers = single(
        event_count(killed(0), 2),
        GameAction::CompleteQuest { id: QuestHandle(0) },
    );
    let events = [failed(0), killed(1), killed(0), killed(0)];
    let expected = [(0.0, 2.0), (0.0, 2.0), (1.0, 2.0), (2.0, 2.0)];
    for (i, event) in events.iter().enumerate() {
        triggers.execute_event(event);
        assert_eq!(progress_of(&triggers, 0), expected[i]);
        if i < 3 {
            assert_eq!(triggers.consume_action(), None);
        }
    }
    assert_eq!(
        triggers.consume_action(),
        Some(GameAction::CompleteQuest { id: QuestHandle(0) })
    );
    assert_eq!(triggers.consume_action(), None);
}

#[test]
fn scenario_cascade() {
    let mut triggers = Triggers::new(vec![
        Trigger::new("a".to_string(), none(), vec![quest(0)]),
        Trigger::new(
            "b".to_string(),
            event_count(GameEvent::Action(quest(0)), 1),
            vec![GameAction::CompleteQuest { id: QuestHandle(0) }],
        ),
    ])
    .compile(&|x| x, &|x| x);
    assert_eq!(
        triggers.consume_all_actions(),
        vec![quest(0), GameAction::CompleteQuest { id: QuestHandle(0) }]
    );
    assert_eq!(triggers.consume_action(), None);
}

#[test]
fn scenario_sequence() {
    let mut triggers = single(
        sequence(vec![event_count(failed(3), 1), event_count(killed(3), 1)]),
        GameAction::DeactivateMonster { id: MonsterHandle(3) },
    );
    assert_eq!(progress_of(&triggers, 0), (0.0, 2.0));
    triggers.execute_event(&killed(3));
    assert_eq!(triggers.consume_action(), None);
    assert_eq!(progress_of(&triggers, 0), (0.0, 2.0));
    triggers.execute_event(&failed(3));
    assert_eq!(triggers.consume_action(), None);
    assert_eq!(progress_of(&triggers, 0), (1.0, 2.0));
    triggers.execute_event(&killed(3));
    assert_eq!(
        triggers.consume_action(),
        Some(GameAction::DeactivateMonster { id: MonsterHandle(3) })
    );
    assert_eq!(progress_of(&triggers, 0), (2.0, 2.0));
}

#[test]
fn scenario_comparison() {
    let mut triggers = single(geq(health(10)), quest(0));
    triggers.execute_event(&health(5));
    assert_eq!(triggers.consume_action(), None);
    assert_eq!(progress_of(&triggers, 0), (0.5, 1.0));
    triggers.execute_event(&health(10));
    assert_eq!(triggers.consume_action(), Some(quest(0)));
    assert_eq!(progress_of(&triggers, 0), (1.0, 1.0));
}

#[test]
fn scenario_composed_none_fires_once() {
    let mut triggers = single(none() & none() | none() & none() | none() & none(), quest(7));
    assert_eq!(triggers.consume_all_actions(), vec![quest(7)]);
    triggers.execute_events(&vec![killed(0), health(3), GameEvent::Action(quest(7))]);
    assert_eq!(triggers.consume_action(), None);
    assert_eq!(progress_of(&triggers, 0), (0.0, 0.0));
}

#[test]
fn progress_of_unknown_handle_is_none() {
    let triggers = single(never(), quest(0));
    assert_eq!(triggers.progress(event_trigger_action_system::TriggerHandle(1)), None);
    assert_eq!(
        triggers.progress(event_trigger_action_system::TriggerHandle::from(0)),
        Some((0, PROGRESS_UNIT))
    );
}

#[test]
fn progress_never_decreases() {
    let mut triggers = single(geq(health(10)), quest(0));
    triggers.execute_event(&health(8));
    assert_eq!(progress_of(&triggers, 0), (0.8, 1.0));
    triggers.execute_event(&health(5));
    assert_eq!(progress_of(&triggers, 0), (0.8, 1.0));
    assert_eq!(triggers.consume_action(), None);
}

#[test]
fn trigger_fires_only_once() {
    let mut triggers = single(event_count(killed(0), 1), quest(0));
    triggers.execute_owned_events(vec![killed(0), killed(0), killed(0)]);
    assert_eq!(triggers.consume_all_actions(), vec![quest(0)]);
    triggers.execute_event(&killed(0));
    assert_eq!(triggers.consume_action(), None);
}

#[test]
fn subscriptions_keep_multiplicity() {
    let mut trigger = Trigger::new(
        "t".to_string(),
        and(vec![event_count(killed(0), 1), event_count(killed(0), 2)]),
        vec![quest(0)],
    )
    .compile(&|x| x, &|x| x);
    assert_eq!(trigger.subscriptions(), vec![killed_key(0), killed_key(0)]);
    assert_eq!(
        trigger.execute_event(&killed(0)),
        (vec![], vec![TriggerConditionUpdate::Unsubscribe(killed_key(0))])
    );
    assert_eq!(trigger.subscriptions(), vec![killed_key(0)]);
    assert_eq!(
        trigger.execute_event(&killed(0)),
        (
            vec![quest(0)],
            vec![TriggerConditionUpdate::Unsubscribe(killed_key(0))]
        )
    );
    assert_eq!(trigger.subscriptions(), vec![]);
}

#[test]
fn unsubscribed_trigger_does_not_receive_events() {
    let mut triggers = Triggers::new(vec![
        Trigger::new("zero".to_string(), event_count(killed(0), 2), vec![quest(0)]),
        Trigger::new("one".to_string(), event_count(killed(1), 2), vec![quest(1)]),
    ])
    .compile(&|x| x, &|x| x);
    triggers.execute_event(&killed(1));
    assert_eq!(progress_of(&triggers, 0), (0.0, 2.0));
    assert_eq!(progress_of(&triggers, 1), (1.0, 2.0));
}

#[test]
fn sequence_subscribes_to_the_next_child() {
    let mut trigger = Trigger::new(
        "t".to_string(),
        sequence(vec![event_count(failed(3), 1), event_count(killed(3), 1)]),
        vec![quest(0)],
    )
    .compile(&|x| x, &|x| x);
    let failed_key = GameEventIdentifier::FailedMonster { id: MonsterHandle(3) }.key();
    assert_eq!(trigger.subscriptions(), vec![failed_key]);
    assert_eq!(
        trigger.execute_event(&failed(3)),
        (
            vec![],
            vec![
                TriggerConditionUpdate::Unsubscribe(failed_key),
                TriggerConditionUpdate::Subscribe(killed_key(3))
            ]
        )
    );
    assert_eq!(trigger.subscriptions(), vec![killed_key(3)]);
}

#[test]
fn fulfilled_children_are_set_aside_at_compile_time() {
    let mut triggers = single(and(vec![none(), event_count(killed(0), 1)]), quest(0));
    assert_eq!(triggers.consume_action(), None);
    assert_eq!(progress_of(&triggers, 0), (0.0, 1.0));
    triggers.execute_event(&killed(0));
    assert_eq!(triggers.consume_action(), Some(quest(0)));
    let trigger = Trigger::new("t".to_string(), or(vec![none(), event_count(killed(0), 1)]), vec![quest(1)])
        .compile(&|x| x, &|x| x);
    assert!(!trigger.completed());
    assert_eq!(trigger.subscriptions(), vec![killed_key(0)]);
    let trigger = Trigger::<GameEvent, GameAction>::new("t".to_string(), or(vec![none(), none()]), vec![quest(1)])
        .compile(&|x| x, &|x| x);
    assert!(trigger.completed());
    assert_eq!(trigger.subscriptions(), vec![]);
    let mut triggers = single(any_n(vec![none(), event_count(killed(0), 1), event_count(killed(1), 1)], 2), quest(2));
    assert_eq!(progress_of(&triggers, 0), (0.0, 1.0));
    triggers.execute_event(&killed(1));
    assert_eq!(triggers.consume_action(), Some(quest(2)));
}

#[test]
fn operators_collapse() {
    let nested: event_trigger_action_system::TriggerCondition<()> = (none() & never()) & none();
    assert_eq!(nested, and(vec![none(), never(), none()]));
    let nested: event_trigger_action_system::TriggerCondition<()> = (none() | never()) | none();
    assert_eq!(nested, or(vec![none(), never(), none()]));
    let right: event_trigger_action_system::TriggerCondition<()> = never() & and(vec![none()]);
    assert_eq!(right, and(vec![none(), never()]));
    let both: event_trigger_action_system::TriggerCondition<()> = or(vec![none()]) | or(vec![never()]);
    assert_eq!(both, or(vec![none(), never()]));
}

#[test]
fn empty_and_is_fulfilled_and_empty_or_is_not() {
    let mut triggers = single(and(vec![]), quest(0));
    assert_eq!(triggers.consume_action(), Some(quest(0)));
    let mut triggers = single(or(vec![]), quest(1));
    assert_eq!(triggers.consume_action(), None);
    assert_eq!(progress_of(&triggers, 0), (0.0, 0.0));
    triggers.execute_event(&killed(0));
    assert_eq!(triggers.consume_action(), None);
}

#[test]
fn any_n_with_zero_fires_immediately() {
    let mut triggers = single(any_n(vec![never()], 0), quest(0));
    assert_eq!(triggers.consume_action(), Some(quest(0)));
}

#[test]
fn any_n_progress_is_the_mean_of_the_best_children() {
    let mut triggers = single(
        any_n(
            vec![event_count(killed(0), 2), event_count(killed(1), 2), event_count(killed(2), 2)],
            2,
        ),
        quest(0),
    );
    assert_eq!(progress_of(&triggers, 0), (0.0, 4.0));
    triggers.execute_event(&killed(0));
    assert_eq!(progress_of(&triggers, 0), (1.0, 4.0));
    triggers.execute_event(&killed(0));
    assert_eq!(progress_of(&triggers, 0), (2.0, 4.0));
    triggers.execute_event(&killed(1));
    assert_eq!(progress_of(&triggers, 0), (3.0, 4.0));
    assert_eq!(triggers.consume_action(), None);
    triggers.execute_event(&killed(1));
    assert_eq!(progress_of(&triggers, 0), (4.0, 4.0));
    assert_eq!(triggers.consume_action(), Some(quest(0)));
    triggers.execute_event(&killed(2));
    assert_eq!(triggers.consume_action(), None);
}

#[test]
fn or_progress_follows_the_closest_child() {
    let mut triggers = single(or(vec![event_count(killed(0), 2), event_count(killed(1), 4)]), quest(0));
    assert_eq!(progress_of(&triggers, 0), (0.0, 2.0));
    triggers.execute_event(&killed(1));
    assert_eq!(progress_of(&triggers, 0), (0.5, 2.0));
    triggers.execute_event(&killed(0));
    assert_eq!(progress_of(&triggers, 0), (1.0, 2.0));
    triggers.execute_event(&killed(0));
    assert_eq!(progress_of(&triggers, 0), (2.0, 2.0));
    assert_eq!(triggers.consume_action(), Some(quest(0)));
    triggers.execute_event(&killed(1));
    assert_eq!(triggers.consume_action(), None);
}

#[test]
fn and_progress_sums_the_children() {
    let mut triggers = single(and(vec![event_count(killed(0), 2), never()]), quest(0));
    assert_eq!(progress_of(&triggers, 0), (0.0, 3.0));
    triggers.execute_event(&killed(0));
    assert_eq!(progress_of(&triggers, 0), (1.0, 3.0));
    triggers.execute_event(&killed(0));
    assert_eq!(progress_of(&triggers, 0), (2.0, 3.0));
    assert_eq!(triggers.consume_action(), None);
}

#[test]
fn strict_and_loose_comparisons() {
    let mut triggers = single(gt(health(10)), quest(0));
    triggers.execute_event(&health(10));
    assert_eq!(triggers.consume_action(), None);
    assert_eq!(progress_of(&triggers, 0), (0.909091, 1.0));
    triggers.execute_event(&health(11));
    assert_eq!(triggers.consume_action(), Some(quest(0)));

    let mut triggers = single(lt(health(10)), quest(1));
    triggers.execute_event(&health(10));
    assert_eq!(triggers.consume_action(), None);
    assert_eq!(progress_of(&triggers, 0), (0.9, 1.0));
    triggers.execute_event(&health(9));
    assert_eq!(triggers.consume_action(), Some(quest(1)));

    let mut triggers = single(eq(health(10)), quest(2));
    triggers.execute_event(&health(5));
    assert_eq!(progress_of(&triggers, 0), (0.5, 1.0));
    triggers.execute_event(&health(11));
    assert_eq!(triggers.consume_action(), None);
    triggers.execute_event(&health(10));
    assert_eq!(triggers.consume_action(), Some(quest(2)));

    let mut triggers = single(leq(health(10)), quest(3));
    triggers.execute_event(&health(20));
    assert_eq!(triggers.consume_action(), None);
    assert_eq!(progress_of(&triggers, 0), (0.5, 1.0));
    triggers.execute_event(&health(10));
    assert_eq!(triggers.consume_action(), Some(quest(3)));
}

#[test]
fn cascade_reinjects_every_action_once() {
    let b = GameAction::CompleteQuest { id: QuestHandle(0) };
    let c = GameAction::FailQuest { id: QuestHandle(0) };
    let mut triggers = Triggers::new(vec![
        Trigger::new("a".to_string(), none(), vec![quest(0)]),
        Trigger::new("b".to_string(), event_count(GameEvent::Action(quest(0)), 1), vec![b.clone()]),
        Trigger::new("c".to_string(), event_count(GameEvent::Action(b.clone()), 1), vec![c.clone()]),
        Trigger::new("d".to_string(), event_count(GameEvent::Action(c.clone()), 2), vec![quest(9)]),
    ])
    .compile(&|x| x, &|x| x);
    assert_eq!(triggers.consume_all_actions(), vec![quest(0), b, c.clone()]);
    assert_eq!(progress_of(&triggers, 3), (1.0, 2.0));
    triggers.execute_event(&GameEvent::Action(c));
    assert_eq!(triggers.consume_all_actions(), vec![quest(9)]);
}

#[test]
fn unit_events_compare_as_equal() {
    let mut triggers = Triggers::new(vec![Trigger::<(), ()>::new("unit".to_string(), eq(()), vec![()])])
        .compile(&|x| x, &|x| x);
    assert_eq!(triggers.consume_action(), None);
    triggers.execute_event(&());
    assert_eq!(triggers.consume_action(), Some(()));
    assert_eq!(().partial_cmp_progress(&(), Ordering::Less), Some(0));
    assert_eq!(().partial_cmp_progress(&(), Ordering::Equal), Some(PROGRESS_UNIT));
}

#[test]
fn compound_assignment_operators_collapse() {
    let mut condition: event_trigger_action_system::TriggerCondition<()> = none();
    condition &= never();
    condition &= none();
    assert_eq!(condition, and(vec![none(), never(), none()]));
    let mut condition: event_trigger_action_system::TriggerCondition<()> = never();
    condition |= none();
    condition |= or(vec![never()]);
    assert_eq!(condition, or(vec![never(), none(), never()]));
}

#[test]
fn events_are_dispatched_by_the_given_identifier() {
    let mut triggers = Triggers::new(vec![
        Trigger::new("zero".to_string(), event_count(killed(0), 1), vec![quest(0)]),
        Trigger::new("one".to_string(), event_count(killed(1), 1), vec![quest(1)]),
    ])
    .compile(&|x| x, &|x| x);
    triggers.execute_identified_event(&killed(0), killed_key(1));
    assert_eq!(triggers.consume_all_actions(), vec![quest(1)]);
    assert_eq!(progress_of(&triggers, 0), (0.0, 1.0));

    let mut trigger = Trigger::new("t".to_string(), event_count(killed(2), 2), vec![quest(2)]).compile(&|x| x, &|x| x);
    assert_eq!(
        trigger.execute_identified_event(&killed(5), killed_key(2)),
        (vec![], vec![])
    );
    assert_eq!(units(trigger.progress()), (1.0, 2.0));
}

#[test]
fn comparison_step_follows_the_host() {
    assert_eq!(
        comparison_step(Comparison::GreaterOrEqual, Some(Ordering::Equal), None, 300_000),
        (true, PROGRESS_UNIT)
    );
    assert_eq!(
        comparison_step(Comparison::Greater, Some(Ordering::Equal), Some(900_000), 300_000),
        (false, 900_000)
    );
    assert_eq!(
        comparison_step(Comparison::Less, Some(Ordering::Greater), Some(5 * PROGRESS_UNIT), 0),
        (false, PROGRESS_UNIT)
    );
    assert_eq!(
        comparison_step(Comparison::Equal, Some(Ordering::Less), Some(100_000), 300_000),
        (false, 300_000)
    );
    assert_eq!(comparison_step(Comparison::LessOrEqual, None, None, 200_000), (false, 200_000));
}

#[test]
fn fulfilled_or_unsubscribes_its_other_children() {
    let mut trigger = Trigger::new(
        "t".to_string(),
        or(vec![event_count(killed(0), 1), event_count(killed(1), 3)]),
        vec![quest(0)],
    )
    .compile(&|x| x, &|x| x);
    assert_eq!(
        trigger.execute_event(&killed(0)),
        (
            vec![quest(0)],
            vec![
                TriggerConditionUpdate::Unsubscribe(killed_key(0)),
                TriggerConditionUpdate::Unsubscribe(killed_key(1))
            ]
        )
    );
    assert_eq!(trigger.subscriptions(), vec![]);
}
