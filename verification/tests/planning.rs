use chem_planner::calculator::action::Action;
use chem_planner::calculator::planner::{
    compress_state, compute_actions, compute_step, emptied_chemicals, find_intially_empty,
    trim_basics,
};
use chem_planner::calculator::reservoir::ChemState;
use chem_planner::calculator::tree::ChemTree;
use chem_planner::chemicals::{ChemToken, Chemical, NumberOperator, NumberToken, PlanError};

fn reagent(name: &str, quantity: NumberToken) -> ChemToken {
    ChemToken {
        quantity,
        chemical: Chemical { name: Some(name.to_string()), chemicals: vec![], temp: None },
        priority: 0,
        concrete_quantity: None,
    }
}

fn mixture(quantity: NumberToken, parts: Vec<ChemToken>, temp: Option<u32>) -> ChemToken {
    ChemToken {
        quantity,
        chemical: Chemical { name: None, chemicals: parts, temp },
        priority: 0,
        concrete_quantity: None,
    }
}

fn fraction(n: u32, d: u32) -> NumberToken {
    NumberToken::Calculated(NumberOperator::new(n, d))
}

#[test]
fn one_part_and_a_third_make_one_bottle() {
    let recipe = mixture(
        NumberToken::Constant(50),
        vec![reagent("a", fraction(1, 1)), reagent("b", fraction(1, 3))],
        None,
    );
    let tree = ChemTree::deconstruct(&recipe).unwrap();
    let (actions, sizes) = compute_actions(&tree, 1).unwrap();
    assert_eq!(
        actions,
        vec![
            Action::EjectDownTo { target: 1, amount: 50 },
            Action::Transfer { amount: 17, source: 2, target: 1 },
            Action::Eject { target: 2 },
            Action::CreateBottle { target: 1, amount: 100 },
        ]
    );
    assert_eq!(sizes, vec![100, 50, 0, 0, 0, 0, 0, 0, 0, 0]);
}

#[test]
fn no_batches_leave_the_bank_unused() {
    let recipe = mixture(
        NumberToken::Constant(50),
        vec![reagent("a", fraction(1, 1)), reagent("b", fraction(1, 3))],
        None,
    );
    let tree = ChemTree::deconstruct(&recipe).unwrap();
    let (actions, sizes) = compute_actions(&tree, 0).unwrap();
    assert_eq!(actions, vec![]);
    assert_eq!(sizes, vec![50, 50, 0, 0, 0, 0, 0, 0, 0, 0]);
}

#[test]
fn eleven_reagents_are_too_many() {
    let names = ["a", "b", "c", "d", "e", "f", "g", "h", "i", "j", "k"];
    let parts = names.iter().map(|n| reagent(n, NumberToken::Constant(1))).collect();
    let recipe = mixture(NumberToken::Constant(11), parts, None);
    let tree = ChemTree::deconstruct(&recipe).unwrap();
    assert_eq!(compute_actions(&tree, 1), Err(PlanError::TooManyReagents { count: 11 }));
}

fn half() -> NumberToken {
    fraction(1, 2)
}

fn with_priority(mut token: ChemToken, priority: u32) -> ChemToken {
    token.priority = priority;
    token
}

fn amounts(state: &ChemState) -> Vec<Option<u32>> {
    state
        .chems
        .iter()
        .map(|r| r.contents.as_ref().map(|t| t.concrete_quantity.unwrap()))
        .collect()
}

/// 60:($/2:(10:a;20:b;);$/2:c;)
fn nested() -> ChemToken {
    mixture(
        NumberToken::Constant(60),
        vec![
            mixture(
                half(),
                vec![
                    reagent("a", NumberToken::Constant(10)),
                    reagent("b", NumberToken::Constant(20)),
                ],
                None,
            ),
            reagent("c", half()),
        ],
        None,
    )
}

#[test]
fn a_mixture_in_a_mixture_is_made_first() {
    let tree = ChemTree::deconstruct(&nested()).unwrap();
    let (actions, sizes) = compute_actions(&tree, 1).unwrap();
    assert_eq!(
        actions,
        vec![
            Action::EjectDownTo { target: 1, amount: 10 },
            Action::Transfer { amount: 20, source: 2, target: 1 },
            Action::Eject { target: 2 },
            Action::EjectDownTo { target: 1, amount: 30 },
            Action::Transfer { amount: 30, source: 3, target: 1 },
            Action::Eject { target: 3 },
            Action::CreateBottle { target: 1, amount: 100 },
        ]
    );
    assert_eq!(sizes, vec![100, 50, 50, 0, 0, 0, 0, 0, 0, 0]);
}

#[test]
fn two_batches_leave_the_stock_where_it_is() {
    let recipe = mixture(
        NumberToken::Constant(20),
        vec![reagent("a", half()), reagent("b", half())],
        None,
    );
    let mut tree = ChemTree::deconstruct(&recipe).unwrap();
    tree.initial_state.multiply(2).unwrap();
    assert_eq!(amounts(&tree.initial_state)[..3], [Some(20), Some(20), None]);
    let (actions, sizes) = compute_actions(&tree, 2).unwrap();
    assert_eq!(
        actions,
        vec![
            Action::Transfer { amount: 10, source: 1, target: 3 },
            Action::Transfer { amount: 10, source: 2, target: 3 },
            Action::CreateBottle { target: 3, amount: 100 },
            Action::Transfer { amount: 10, source: 1, target: 3 },
            Action::Transfer { amount: 10, source: 2, target: 3 },
            Action::CreateBottle { target: 3, amount: 100 },
        ]
    );
    assert_eq!(sizes, vec![50, 50, 50, 0, 0, 0, 0, 0, 0, 0]);
    assert_eq!(sizes[..2], tree.initial_state.get_sizes()[..2]);
}

#[test]
fn a_temperature_makes_a_heat_action() {
    let recipe = mixture(
        NumberToken::Constant(10),
        vec![reagent("a", half()), reagent("b", half())],
        Some(374),
    );
    let tree = ChemTree::deconstruct(&recipe).unwrap();
    let (actions, _) = compute_actions(&tree, 1).unwrap();
    assert_eq!(
        actions,
        vec![
            Action::EjectDownTo { target: 1, amount: 5 },
            Action::Transfer { amount: 5, source: 2, target: 1 },
            Action::Eject { target: 2 },
            Action::Heat { temp: 374, target: 1 },
            Action::CreateBottle { target: 1, amount: 100 },
        ]
    );
}

#[test]
fn the_highest_priority_is_made_first() {
    let five = NumberToken::Constant(5);
    let ten = NumberToken::Constant(10);
    let recipe = mixture(
        NumberToken::Constant(40),
        vec![
            mixture(ten, vec![reagent("a", five), reagent("b", five)], None),
            with_priority(mixture(ten, vec![reagent("c", five), reagent("d", five)], None), 5),
            reagent("e", NumberToken::Constant(20)),
        ],
        None,
    );
    let tree = ChemTree::deconstruct(&recipe).unwrap();
    let (actions, sizes) = compute_actions(&tree, 1).unwrap();
    assert_eq!(
        actions,
        vec![
            Action::EjectDownTo { target: 3, amount: 5 },
            Action::Transfer { amount: 5, source: 4, target: 3 },
            Action::Eject { target: 4 },
            Action::EjectDownTo { target: 1, amount: 5 },
            Action::Transfer { amount: 5, source: 2, target: 1 },
            Action::Eject { target: 2 },
            Action::EjectDownTo { target: 3, amount: 10 },
            Action::Transfer { amount: 10, source: 1, target: 3 },
            Action::Eject { target: 1 },
            Action::Transfer { amount: 20, source: 5, target: 3 },
            Action::Eject { target: 5 },
            Action::CreateBottle { target: 3, amount: 100 },
        ]
    );
    assert_eq!(sizes, vec![50, 50, 50, 50, 50, 0, 0, 0, 0, 0]);
}

#[test]
fn of_equal_priorities_the_one_that_empties_more_is_made_first() {
    let recipe = mixture(
        NumberToken::Constant(30),
        vec![
            mixture(
                NumberToken::Constant(10),
                vec![reagent("a", NumberToken::Constant(4)), reagent("b", NumberToken::Constant(6))],
                None,
            ),
            mixture(
                NumberToken::Constant(10),
                vec![reagent("c", NumberToken::Constant(5)), reagent("d", NumberToken::Constant(5))],
                None,
            ),
            reagent("a", NumberToken::Constant(3)),
        ],
        None,
    );
    let tree = ChemTree::deconstruct(&recipe).unwrap();
    assert_eq!(amounts(&tree.initial_state)[..5], [Some(7), Some(6), Some(5), Some(5), None]);
    let (actions, sizes) = compute_actions(&tree, 1).unwrap();
    assert_eq!(
        actions,
        vec![
            Action::EjectDownTo { target: 3, amount: 5 },
            Action::Transfer { amount: 5, source: 4, target: 3 },
            Action::Eject { target: 4 },
            Action::EjectDownTo { target: 2, amount: 6 },
            Action::Transfer { amount: 4, source: 1, target: 2 },
            Action::EjectDownTo { target: 2, amount: 10 },
            Action::Transfer { amount: 10, source: 3, target: 2 },
            Action::Eject { target: 3 },
            Action::Transfer { amount: 3, source: 1, target: 2 },
            Action::Eject { target: 1 },
            Action::CreateBottle { target: 2, amount: 100 },
        ]
    );
    assert_eq!(sizes, vec![50, 50, 50, 50, 0, 0, 0, 0, 0, 0]);
}

#[test]
fn the_score_counts_the_reservoirs_that_would_be_left_empty() {
    let recipe = mixture(
        NumberToken::Constant(30),
        vec![
            reagent("a", NumberToken::Constant(4)),
            reagent("b", NumberToken::Constant(6)),
            reagent("a", NumberToken::Constant(4)),
        ],
        None,
    );
    let tree = ChemTree::deconstruct(&recipe).unwrap();
    assert_eq!(emptied_chemicals(&tree.root.chem, &tree.initial_state, 0), 1);
    let only_b = mixture(NumberToken::Constant(6), vec![reagent("b", half())], None);
    let resolved = only_b.resolved(None).unwrap();
    assert_eq!(emptied_chemicals(&resolved, &tree.initial_state, 0), 0);
    assert_eq!(emptied_chemicals(&only_b, &tree.initial_state, 0), 0);
    let twice = mixture(
        NumberToken::Constant(6),
        vec![reagent("b", NumberToken::Constant(6)), reagent("b", NumberToken::Constant(6))],
        None,
    );
    assert_eq!(emptied_chemicals(&twice.resolved(None).unwrap(), &tree.initial_state, 7), 2);
}

#[test]
fn a_step_writes_what_it_takes() {
    let tree = ChemTree::deconstruct(&nested()).unwrap();
    let mut state = tree.initial_state.clone();
    let mut working = tree.root.clone();
    trim_basics(&mut working);
    assert_eq!(working.children.len(), 1);
    assert_eq!(working.children[0].id, 2);
    assert!(working.children[0].is_leaf());
    let mut actions = vec![Action::Eject { target: 9 }];
    let before: u32 = amounts(&state).iter().map(|a| a.unwrap_or(0)).sum();
    assert_eq!(compute_step(&mut state, &mut working, &mut actions, 0), Ok(1));
    let after = amounts(&state);
    assert_eq!(after[..4], [Some(30), None, Some(30), None]);
    let untouched: u32 = after[1..].iter().map(|a| a.unwrap_or(0)).sum();
    let taken = before - untouched;
    assert_eq!(taken, 10 + 20);
    assert_eq!(state.chems[0].contents.as_ref().unwrap().size(), Ok(taken));
    assert!(working.is_leaf());
    assert_eq!(actions.len(), 4);
    assert_eq!(actions[0], Action::Eject { target: 9 });
    assert!(state.count_nonempty() <= 10);
    assert_eq!(state.chems.len(), 10);
    assert_eq!(compute_step(&mut state, &mut working, &mut actions, 0), Ok(1));
    assert_eq!(state.chems[0].contents.as_ref().unwrap().size(), Ok(60));
    assert_eq!(amounts(&state)[..4], [Some(60), None, None, None]);
    assert_eq!(state.get_sizes()[..3], [100, 50, 50]);
    assert_eq!(actions.len(), 7);
}

#[test]
fn a_failed_step_changes_nothing() {
    let tree = ChemTree::deconstruct(&nested()).unwrap();
    let mut working = tree.root.clone();
    trim_basics(&mut working);
    let mut empty = ChemState::default();
    let mut actions = vec![];
    assert_eq!(
        compute_step(&mut empty, &mut working, &mut actions, 0),
        Err(PlanError::MissingReservoir)
    );
    assert_eq!(empty.count_nonempty(), 0);
    assert_eq!(working.children.len(), 1);
    assert!(actions.is_empty());
    let mut short = tree.initial_state.clone();
    short.reduce(0, 1).unwrap();
    assert_eq!(
        compute_step(&mut short, &mut working, &mut actions, 0),
        Err(PlanError::InsufficientStock { have: 9, need: 10 })
    );
    assert_eq!(amounts(&short)[..3], [Some(9), Some(20), Some(30)]);
    assert!(actions.is_empty());
}

#[test]
fn a_plan_fails_as_a_whole() {
    let mut tree = ChemTree::deconstruct(&nested()).unwrap();
    tree.initial_state.clear(2);
    assert_eq!(compute_actions(&tree, 1), Err(PlanError::MissingReservoir));
    let mut tree = ChemTree::deconstruct(&nested()).unwrap();
    tree.initial_state.reduce(2, 5).unwrap();
    assert_eq!(
        compute_actions(&tree, 1),
        Err(PlanError::InsufficientStock { have: 25, need: 30 })
    );
    let tree = ChemTree::deconstruct(&nested()).unwrap();
    assert_eq!(
        compute_actions(&tree, 2),
        Err(PlanError::InsufficientStock { have: 0, need: 10 })
    );
    let mut tree = ChemTree::deconstruct(&nested()).unwrap();
    tree.initial_state.chems[0].contents.as_mut().unwrap().concrete_quantity = Some(15);
    assert_eq!(
        compute_actions(&tree, 2),
        Err(PlanError::InsufficientStock { have: 5, need: 10 })
    );
    let big = mixture(
        NumberToken::Constant(90),
        vec![reagent("a", NumberToken::Constant(60)), reagent("b", NumberToken::Constant(60))],
        None,
    );
    let tree = ChemTree::deconstruct(&big).unwrap();
    assert_eq!(compute_actions(&tree, 1), Err(PlanError::CapacityExceeded { needed: 120 }));
}

#[test]
fn ten_reagents_leave_no_room_for_more_batches() {
    let names = ["a", "b", "c", "d", "e", "f", "g", "h", "i", "j"];
    let parts = names.iter().map(|n| reagent(n, NumberToken::Constant(1))).collect();
    let recipe = mixture(NumberToken::Constant(10), parts, None);
    let tree = ChemTree::deconstruct(&recipe).unwrap();
    assert_eq!(compute_actions(&tree, 2), Err(PlanError::NoEmptyReservoir));
    let (actions, sizes) = compute_actions(&tree, 1).unwrap();
    assert_eq!(actions.len(), 1 + 9 * 2 + 1);
    assert_eq!(actions[0], Action::EjectDownTo { target: 1, amount: 1 });
    assert_eq!(actions[19], Action::CreateBottle { target: 1, amount: 100 });
    assert_eq!(sizes, vec![50; 10]);
    assert_eq!(compute_actions(&tree, 0).unwrap().0, vec![]);
}

#[test]
fn too_many_reagents_fail_even_without_batches() {
    let names = ["a", "b", "c", "d", "e", "f", "g", "h", "i", "j", "k", "l"];
    let parts = names.iter().map(|n| reagent(n, NumberToken::Constant(1))).collect();
    let recipe = mixture(NumberToken::Constant(12), parts, None);
    let tree = ChemTree::deconstruct(&recipe).unwrap();
    assert_eq!(tree.initial_state.chems.len(), 12);
    assert_eq!(compute_actions(&tree, 0), Err(PlanError::TooManyReagents { count: 12 }));
    assert_eq!(compute_actions(&tree, 3), Err(PlanError::TooManyReagents { count: 12 }));
}

#[test]
fn a_single_reagent_is_bottled_from_its_stock() {
    let tree = ChemTree::deconstruct(&reagent("water", NumberToken::Constant(50))).unwrap();
    let (actions, sizes) = compute_actions(&tree, 1).unwrap();
    assert_eq!(actions, vec![Action::CreateBottle { target: 1, amount: 100 }]);
    assert_eq!(sizes, vec![50, 50, 0, 0, 0, 0, 0, 0, 0, 0]);
}

#[test]
fn the_floor_is_the_first_empty_reservoir() {
    let mut tree = ChemTree::deconstruct(&nested()).unwrap();
    assert_eq!(find_intially_empty(&tree.initial_state), Ok(3));
    let mut state = tree.initial_state.clone();
    compress_state(&mut state, &mut tree);
    assert_eq!(amounts(&state)[..4], [Some(10), Some(20), Some(30), None]);
    assert_eq!(tree.root.children.len(), 2);
}

#[test]
fn stock_below_the_floor_is_only_ever_a_source() {
    let mut tree = ChemTree::deconstruct(&nested()).unwrap();
    tree.initial_state.multiply(3).unwrap();
    let floor = find_intially_empty(&tree.initial_state).unwrap();
    assert_eq!(floor, 3);
    let (actions, sizes) = compute_actions(&tree, 3).unwrap();
    let one_batch = vec![
        Action::Transfer { amount: 10, source: 1, target: 4 },
        Action::Transfer { amount: 20, source: 2, target: 4 },
        Action::EjectDownTo { target: 4, amount: 30 },
        Action::Transfer { amount: 30, source: 3, target: 4 },
        Action::CreateBottle { target: 4, amount: 100 },
    ];
    assert_eq!(actions, [one_batch.clone(), one_batch.clone(), one_batch].concat());
    for action in &actions {
        match action {
            Action::Transfer { target, .. } => assert!(*target > floor),
            Action::Heat { target, .. }
            | Action::Eject { target }
            | Action::DumpByproduct { target, .. }
            | Action::EjectDownTo { target, .. }
            | Action::CreateBottle { target, .. }
            | Action::CreatePill { target, .. } => assert!(*target > floor),
        }
    }
    assert_eq!(sizes[..3], tree.initial_state.get_sizes()[..3]);
    assert_eq!(sizes, vec![50, 100, 100, 100, 0, 0, 0, 0, 0, 0]);
}

#[test]
fn a_step_leaves_drained_stock_in_place() {
    let tree = ChemTree::deconstruct(&nested()).unwrap();
    let mut state = tree.initial_state.clone();
    let mut working = tree.root.clone();
    trim_basics(&mut working);
    let mut actions = vec![];
    assert_eq!(compute_step(&mut state, &mut working, &mut actions, 3), Ok(4));
    assert_eq!(
        actions,
        vec![
            Action::Transfer { amount: 10, source: 1, target: 4 },
            Action::Transfer { amount: 20, source: 2, target: 4 },
        ]
    );
    assert_eq!(amounts(&state)[..5], [Some(0), Some(0), Some(30), Some(30), None]);
    let mut state = tree.initial_state.clone();
    let mut working = tree.root.clone();
    trim_basics(&mut working);
    let mut actions = vec![];
    assert_eq!(compute_step(&mut state, &mut working, &mut actions, 1), Ok(2));
    assert_eq!(
        actions,
        vec![
            Action::EjectDownTo { target: 2, amount: 20 },
            Action::Transfer { amount: 10, source: 1, target: 2 },
        ]
    );
    assert_eq!(amounts(&state)[..3], [Some(0), Some(30), Some(30)]);
}
