use event_trigger_action_system::{
    event_count, geq, none, sequence, Trigger, TriggerAction, TriggerConditionUpdate, TriggerEvent, Triggers,
    PROGRESS_UNIT,
};
use std::cmp::Ordering;

#[derive(Debug, Clone, Ord, PartialOrd, Eq, PartialEq)]
enum GameAction {
    ActivateQuest { id: QuestHandle },
    CompleteQuest { id: QuestHandle },
    FailQuest { id: QuestHandle },
    ActivateMonster { id: MonsterHandle },
    DeactivateMonster { id: MonsterHandle },
}

#[derive(Debug, Eq, PartialEq)]
enum GameEvent {
    Action(GameAction),
    KilledMonster { id: MonsterHandle },
    FailedMonster { id: MonsterHandle },
    HealthChanged { health: usize },
    MonsterHealthChanged { id: MonsterHandle, health: usize },
}

#[derive(Debug, Clone, Ord, PartialOrd, Eq, PartialEq)]
enum GameEventIdentifier {
    Action(GameAction),
    KilledMonster { id: MonsterHandle },
    FailedMonster { id: MonsterHandle },
    HealthChanged,
    MonsterHealthChanged { id: MonsterHandle },
}

#[derive(Debug, Clone, Copy, Ord, PartialOrd, Eq, PartialEq)]
struct QuestHandle(usize);
#[derive(Debug, Clone, Copy, Ord, PartialOrd, Eq, PartialEq)]
struct MonsterHandle(usize);

impl GameAction {
    fn key(&self) -> u64 {
        let (kind, id) = match self {
            GameAction::ActivateQuest { id } => (0, id.0),
            GameAction::CompleteQuest { id } => (1, id.0),
            GameAction::FailQuest { id } => (2, id.0),
            GameAction::ActivateMonster { id } => (3, id.0),
            GameAction::DeactivateMonster { id } => (4, id.0),
        };
        (kind << 40) | id as u64
    }
}

impl GameEventIdentifier {
    /// An injective encoding of the identifier as a `u64`.
    fn key(&self) -> u64 {
        match self {
            GameEventIdentifier::Action(action) => (1 << 56) | action.key(),
            GameEventIdentifier::KilledMonster { id } => (2 << 56) | id.0 as u64,
            GameEventIdentifier::FailedMonster { id } => (3 << 56) | id.0 as u64,
            GameEventIdentifier::HealthChanged => 4 << 56,
            GameEventIdentifier::MonsterHealthChanged { id } => (5 << 56) | id.0 as u64,
        }
    }
}

impl TriggerAction for GameAction {}

impl GameEvent {
    fn game_identifier(&self) -> GameEventIdentifier {
        match self {
            GameEvent::Action(action) => GameEventIdentifier::Action(action.clone()),
            GameEvent::KilledMonster { id } => GameEventIdentifier::KilledMonster { id: *id },
            GameEvent::FailedMonster { id } => GameEventIdentifier::FailedMonster { id: *id },
            GameEvent::HealthChanged { .. } => GameEventIdentifier::HealthChanged,
            GameEvent::MonsterHealthChanged { id, .. } => GameEventIdentifier::MonsterHealthChanged { id: *id },
        }
    }

    fn closeness(&self, other: &Self, target_ordering: Ordering) -> Option<f64> {
        match (self, other) {
            (
                GameEvent::MonsterHealthChanged { id: id_self, .. },
                GameEvent::MonsterHealthChanged { id: id_other, .. },
            ) if id_self != id_other => None,
            (
                GameEvent::HealthChanged {
                    health: health_self,
                },
                GameEvent::HealthChanged {
                    health: health_other,
                },
            )
            | (
                GameEvent::MonsterHealthChanged {
                    health: health_self,
                    ..
                },
                GameEvent::MonsterHealthChanged {
                    health: health_other,
                    ..
                },
            ) => Some(
                match target_ordering {
                    Ordering::Less => (*health_other - 1) as f64 / *health_self as f64,
                    Ordering::Equal => (*health_self as f64 / *health_other as f64)
                        .min(*health_other as f64 / *health_self as f64),
                    Ordering::Greater => *health_self as f64 / (*health_other + 1) as f64,
                }
                .clamp(0.0, 1.0),
            ),
            _ => None,
        }
    }
}

impl TriggerEvent for GameEvent {
    type Action = GameAction;

    fn spec_identifier(&self) -> u64 {
        self.identifier()
    }

    fn spec_from_action(action: &GameAction) -> Self {
        Self::from_action(action)
    }

    fn spec_partial_cmp(&self, other: &Self) -> Option<Ordering> {
        self.partial_cmp(other)
    }

    fn partial_cmp_event(&self, other: &Self) -> Option<Ordering> {
        self.partial_cmp(other)
    }

    fn spec_cmp_progress(&self, other: &Self, target_ordering: Ordering) -> Option<u64> {
        self.partial_cmp_progress(other, target_ordering)
    }

    fn identifier(&self) -> u64 {
        self.game_identifier().key()
    }

    fn partial_cmp_progress(&self, other: &Self, target_ordering: Ordering) -> Option<u64> {
        self.closeness(other, target_ordering)
            .map(|closeness| (closeness * PROGRESS_UNIT as f64).round() as u64)
    }

    fn from_action(action: &GameAction) -> Self {
        GameEvent::Action(action.clone())
    }
}

impl PartialOrd for GameEvent {
    fn partial_cmp(&self, other: &Self) -> Option<Ordering> {
        match (self, other) {
            (
                GameEvent::MonsterHealthChanged { id: id_self, .. },
                GameEvent::MonsterHealthChanged { id: id_other, .. },
            ) if id_self != id_other => None,
            (
                GameEvent::HealthChanged {
                    health: health_self,
                },
                GameEvent::HealthChanged {
                    health: health_other,
                },
            )
            | (
                GameEvent::MonsterHealthChanged {
                    health: health_self,
                    ..
                },
                GameEvent::MonsterHealthChanged {
                    health: health_other,
                    ..
                },
            ) => Some(health_self.cmp(health_other)),
            _ => None,
        }
    }
}

/// A progress pair on the scale of whole units.
fn units(progress: (u64, u64)) -> (f64, f64) {
    (
        progress.0 as f64 / PROGRESS_UNIT as f64,
        progress.1 as f64 / PROGRESS_UNIT as f64,
    )
}

#[test]
fn example_test_none() {
    let trigger = Trigger::<GameEvent, GameAction>::new("".to_string(), none(), vec![])
        .compile(&|x| x, &|x| x);
    assert_eq!(trigger.subscriptions(), vec![]);
    assert_eq!(units(trigger.progress()), (0.0, 0.0));
}

#[test]
fn example_test_repeated_action() {
    let mut trigger = Trigger::new(
        "".to_string(),
        event_count(
            GameEvent::KilledMonster {
                id: MonsterHandle(0),
            },
            2,
        ),
        vec![GameAction::CompleteQuest { id: QuestHandle(0) }],
    )
    .compile(&|x| x, &|x| x);
    assert_eq!(
        trigger.subscriptions(),
        vec![GameEventIdentifier::KilledMonster {
            id: MonsterHandle(0)
        }
        .key()]
    );
    assert_eq!(units(trigger.progress()), (0.0, 2.0));
    assert!(!trigger.condition().completed());

    assert_eq!(
        trigger.execute_event(&GameEvent::FailedMonster {
            id: MonsterHandle(0)
        }),
        (vec![], vec![])
    );
    assert_eq!(units(trigger.progress()), (0.0, 2.0));
    assert!(!trigger.condition().completed());

    assert_eq!(
        trigger.execute_event(&GameEvent::KilledMonster {
            id: MonsterHandle(1)
        }),
        (vec![], vec![])
    );
    assert_eq!(units(trigger.progress()), (0.0, 2.0));
    assert!(!trigger.condition().completed());

    assert_eq!(
        trigger.execute_event(&GameEvent::KilledMonster {
            id: MonsterHandle(0)
        }),
        (vec![], vec![])
    );
    assert_eq!(units(trigger.progress()), (1.0, 2.0));
    assert!(!trigger.condition().completed());

    assert_eq!(
        trigger.execute_event(&GameEvent::KilledMonster {
            id: MonsterHandle(0)
        }),
        (
            vec![GameAction::CompleteQuest { id: QuestHandle(0) }],
            vec![TriggerConditionUpdate::Unsubscribe(
                GameEventIdentifier::KilledMonster {
                    id: MonsterHandle(0)
                }
                .key()
            )]
        )
    );
    assert_eq!(units(trigger.progress()), (2.0, 2.0));
    assert!(trigger.condition().completed());
}

#[test]
fn example_test_composed_none() {
    let trigger = Trigger::<(), ()>::new(
        "".to_string(),
        none() & none() | none() & none() | none() & none(),
        vec![],
    )
    .compile(&|x| x, &|x| x);
    assert!(trigger.condition().completed());
    assert_eq!(units(trigger.progress()), (0.0, 0.0));
}

#[test]
fn example_test_complex() {
    let mut triggers = Triggers::new(vec![
        Trigger::new(
            "".to_string(),
            none(),
            vec![GameAction::ActivateQuest { id: QuestHandle(0) }],
        ),
        Trigger::new(
            "".to_string(),
            event_count(
                GameEvent::KilledMonster {
                    id: MonsterHandle(0),
                },
                2,
            ),
            vec![GameAction::CompleteQuest { id: QuestHandle(0) }],
        ),
        Trigger::new(
            "".to_string(),
            event_count(
                GameEvent::KilledMonster {
                    id: MonsterHandle(0),
                },
                1,
            ),
            vec![GameAction::ActivateQuest { id: QuestHandle(1) }],
        ),
        Trigger::new(
            "".to_string(),
            event_count(
                GameEvent::Action(GameAction::ActivateQuest { id: QuestHandle(1) }),
                1,
            ),
            vec![GameAction::FailQuest { id: QuestHandle(2) }],
        ),
        Trigger::new(
            "".to_string(),
            none(),
            vec![GameAction::ActivateMonster {
                id: MonsterHandle(0),
            }],
        ),
        Trigger::new(
            "".to_string(),
            sequence(vec![
                event_count(
                    GameEvent::FailedMonster {
                        id: MonsterHandle(3),
                    },
                    1,
                ),
                event_count(
                    GameEvent::KilledMonster {
                        id: MonsterHandle(3),
                    },
                    1,
                ),
            ]),
            vec![GameAction::DeactivateMonster {
                id: MonsterHandle(3),
            }],
        ),
    ])
    .compile(&|x| x, &|x| x);
    assert_eq!(
        triggers.consume_action(),
        Some(GameAction::ActivateQuest { id: QuestHandle(0) })
    );
    assert_eq!(
        triggers.consume_action(),
        Some(GameAction::ActivateMonster {
            id: MonsterHandle(0)
        })
    );
    assert_eq!(triggers.consume_action(), None);
    triggers.execute_event(&GameEvent::FailedMonster {
        id: MonsterHandle(2),
    });
    assert_eq!(triggers.consume_action(), None);
    triggers.execute_event(&GameEvent::KilledMonster {
        id: MonsterHandle(0),
    });
    assert_eq!(
        triggers.consume_action(),
        Some(GameAction::ActivateQuest { id: QuestHandle(1) })
    );
    assert_eq!(
        triggers.consume_action(),
        Some(GameAction::FailQuest { id: QuestHandle(2) })
    );
    assert_eq!(triggers.consume_action(), None);
    triggers.execute_event(&GameEvent::KilledMonster {
        id: MonsterHandle(0),
    });
    assert_eq!(
        triggers.consume_action(),
        Some(GameAction::CompleteQuest { id: QuestHandle(0) })
    );
    assert_eq!(triggers.consume_action(), None);
    triggers.execute_event(&GameEvent::KilledMonster {
        id: MonsterHandle(3),
    });
    assert_eq!(triggers.consume_action(), None);
    triggers.execute_event(&GameEvent::FailedMonster {
        id: MonsterHandle(3),
    });
    assert_eq!(triggers.consume_action(), None);
    triggers.execute_event(&GameEvent::KilledMonster {
        id: MonsterHandle(3),
    });
    assert_eq!(
        triggers.consume_action(),
        Some(GameAction::DeactivateMonster {
            id: MonsterHandle(3)
        })
    );
    assert_eq!(triggers.consume_action(), None);
}

#[test]
fn example_test_geq() {
    let mut triggers = Triggers::new(vec![
        Trigger::new(
            "".to_string(),
            geq(GameEvent::HealthChanged { health: 10 }),
            vec![GameAction::ActivateMonster {
                id: MonsterHandle(0),
            }],
        ),
        Trigger::new(
            "".to_string(),
            sequence(vec![
                event_count(
                    GameEvent::Action(GameAction::ActivateMonster {
                        id: MonsterHandle(0),
                    }),
                    1,
                ),
                geq(GameEvent::MonsterHealthChanged {
                    id: MonsterHandle(0),
                    health: 20,
                }),
            ]),
            vec![GameAction::DeactivateMonster {
                id: MonsterHandle(0),
            }],
        ),
    ])
    .compile(&|x| x, &|x| x);
    assert_eq!(triggers.consume_action(), None);

    triggers.execute_event(&GameEvent::KilledMonster {
        id: MonsterHandle(0),
    });
    assert_eq!(triggers.consume_action(), None);
    triggers.execute_event(&GameEvent::HealthChanged { health: 5 });
    assert_eq!(triggers.consume_action(), None);
    triggers.execute_event(&GameEvent::HealthChanged { health: 10 });
    assert_eq!(
        triggers.consume_action(),
        Some(GameAction::ActivateMonster {
            id: MonsterHandle(0)
        })
    );
    assert_eq!(triggers.consume_action(), None);
    triggers.execute_event(&GameEvent::MonsterHealthChanged {
        id: MonsterHandle(0),
        health: 15,
    });
    assert_eq!(triggers.consume_action(), None);
    triggers.execute_event(&GameEvent::MonsterHealthChanged {
        id: MonsterHandle(1),
        health: 30,
    });
    assert_eq!(triggers.consume_action(), None);
    triggers.execute_event(&GameEvent::MonsterHealthChanged {
        id: MonsterHandle(0),
        health: 23,
    });
    assert_eq!(
        triggers.consume_action(),
        Some(GameAction::DeactivateMonster {
            id: MonsterHandle(0)
        })
    );
    assert_eq!(triggers.consume_action(), None);
}
