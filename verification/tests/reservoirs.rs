use chem_planner::calculator::action::{AbstractAction, AbstractActionChain, Action, ActionChain};
use chem_planner::calculator::reservoir::{
    ChemState, Reservoir, ReservoirSize, LARGE_RESERVOIR, NUM_RESERVOIRS, SMALL_RESERVOIR,
};
use chem_planner::chemicals::{ChemToken, Chemical, NumberOperator, NumberToken, PlanError};

fn stock(name: &str, amount: u32) -> ChemToken {
    ChemToken {
        quantity: NumberToken::Constant(amount),
        chemical: Chemical { name: Some(name.to_string()), chemicals: vec![], temp: None },
        priority: 0,
        concrete_quantity: Some(amount),
    }
}

fn mixed(amount: u32, parts: Vec<ChemToken>) -> ChemToken {
    ChemToken {
        quantity: NumberToken::Constant(amount),
        chemical: Chemical { name: None, chemicals: parts, temp: None },
        priority: 0,
        concrete_quantity: Some(amount),
    }
}

fn bank(tokens: Vec<ChemToken>) -> ChemState {
    let reservoirs: Vec<Reservoir> = tokens.iter().map(|t| Reservoir::new(t).unwrap()).collect();
    ChemState::new(&reservoirs)
}

fn held(state: &ChemState, index: usize) -> Option<u32> {
    state.chems[index].contents.as_ref().map(|t| t.concrete_quantity.unwrap())
}

#[test]
fn classes_hold_zero_fifty_and_a_hundred() {
    assert_eq!(NUM_RESERVOIRS, 10);
    assert_eq!(SMALL_RESERVOIR, 50);
    assert_eq!(LARGE_RESERVOIR, 100);
    assert_eq!(ReservoirSize::Empty.get_size(), 0);
    assert_eq!(ReservoirSize::Small.get_size(), 50);
    assert_eq!(ReservoirSize::Large.get_size(), 100);
}

#[test]
fn the_smallest_class_that_fits_is_picked() {
    assert_eq!(ReservoirSize::fit(0), Ok(ReservoirSize::Empty));
    assert_eq!(ReservoirSize::fit(1), Ok(ReservoirSize::Small));
    assert_eq!(ReservoirSize::fit(50), Ok(ReservoirSize::Small));
    assert_eq!(ReservoirSize::fit(51), Ok(ReservoirSize::Large));
    assert_eq!(ReservoirSize::fit(100), Ok(ReservoirSize::Large));
    assert_eq!(ReservoirSize::fit(101), Err(PlanError::CapacityExceeded { needed: 101 }));
}

#[test]
fn a_new_reservoir_has_the_class_of_its_contents() {
    let small = Reservoir::new(&stock("a", 17)).unwrap();
    assert_eq!(small.reservoir_size, ReservoirSize::Small);
    assert_eq!(small.contents.unwrap().concrete_quantity, Some(17));
    let large = Reservoir::new(&stock("a", 67)).unwrap();
    assert_eq!(large.reservoir_size, ReservoirSize::Large);
    let none = Reservoir::new(&stock("a", 0)).unwrap();
    assert_eq!(none.reservoir_size, ReservoirSize::Empty);
    assert!(none.contents.is_some());
    assert_eq!(
        Reservoir::new(&stock("a", 150)).unwrap_err(),
        PlanError::CapacityExceeded { needed: 150 }
    );
    let mut unresolved = stock("a", 5);
    unresolved.concrete_quantity = None;
    assert_eq!(Reservoir::new(&unresolved).unwrap_err(), PlanError::UnresolvedQuantity);
}

#[test]
fn an_empty_reservoir_holds_nothing() {
    let empty = Reservoir::empty();
    assert!(empty.contents.is_none());
    assert_eq!(empty.reservoir_size, ReservoirSize::Empty);
}

#[test]
fn adding_changes_nothing() {
    let mut r = Reservoir::new(&stock("a", 17)).unwrap();
    r.add(&stock("b", 3));
    assert_eq!(r.reservoir_size, ReservoirSize::Small);
    assert_eq!(r.contents.unwrap().chemical.name, Some("a".to_string()));
}

#[test]
fn a_reservoir_grows_class_by_class() {
    let mut r = Reservoir::empty();
    assert_eq!(r.upgrade_size(), Ok(()));
    assert_eq!(r.reservoir_size, ReservoirSize::Small);
    assert_eq!(r.upgrade_size(), Ok(()));
    assert_eq!(r.reservoir_size, ReservoirSize::Large);
    assert_eq!(r.upgrade_size(), Err(PlanError::CapacityExceeded { needed: 101 }));
    assert_eq!(r.reservoir_size, ReservoirSize::Large);
}

#[test]
fn replacing_grows_the_class_and_never_shrinks_it() {
    let mut r = Reservoir::empty();
    assert_eq!(r.replace(&stock("a", 30)), Ok(()));
    assert_eq!(r.reservoir_size, ReservoirSize::Small);
    assert_eq!(r.replace(&stock("b", 60)), Ok(()));
    assert_eq!(r.reservoir_size, ReservoirSize::Large);
    assert_eq!(r.replace(&stock("c", 10)), Ok(()));
    assert_eq!(r.reservoir_size, ReservoirSize::Large);
    assert_eq!(r.contents.as_ref().unwrap().chemical.name, Some("c".to_string()));
    assert_eq!(r.replace(&stock("d", 101)), Err(PlanError::CapacityExceeded { needed: 101 }));
    assert_eq!(r.contents.as_ref().unwrap().chemical.name, Some("c".to_string()));
    assert_eq!(r.reservoir_size, ReservoirSize::Large);
}

#[test]
fn a_mixture_takes_the_room_of_its_parts() {
    let mut r = Reservoir::empty();
    let product = mixed(50, vec![stock("a", 50), stock("b", 17)]);
    assert_eq!(r.replace(&product), Ok(()));
    assert_eq!(r.reservoir_size, ReservoirSize::Large);
}

#[test]
fn clearing_keeps_the_class() {
    let mut r = Reservoir::new(&stock("a", 60)).unwrap();
    r.clear();
    assert!(r.contents.is_none());
    assert_eq!(r.reservoir_size, ReservoirSize::Large);
}

#[test]
fn reducing_takes_units_and_clears_the_parts() {
    let mut r = Reservoir::new(&mixed(50, vec![stock("a", 30), stock("b", 20)])).unwrap();
    assert_eq!(r.reduce(20), Ok(()));
    let left = r.contents.as_ref().unwrap();
    assert_eq!(left.concrete_quantity, Some(30));
    assert_eq!(left.chemical.chemicals[0].concrete_quantity, None);
    assert_eq!(left.chemical.chemicals[1].concrete_quantity, None);
    assert_eq!(r.reservoir_size, ReservoirSize::Small);
    assert_eq!(r.reduce(30), Ok(()));
    assert_eq!(r.contents.as_ref().unwrap().concrete_quantity, Some(0));
    assert!(r.contents.is_some());
}

#[test]
fn reducing_more_than_there_is_fails() {
    let mut r = Reservoir::new(&stock("a", 10)).unwrap();
    assert_eq!(r.reduce(11), Err(PlanError::InsufficientStock { have: 10, need: 11 }));
    assert_eq!(r.contents.as_ref().unwrap().concrete_quantity, Some(10));
    let mut empty = Reservoir::empty();
    assert_eq!(empty.reduce(0), Err(PlanError::MissingReservoir));
    let mut unresolved = Reservoir::new(&stock("a", 10)).unwrap();
    unresolved.contents.as_mut().unwrap().concrete_quantity = None;
    assert_eq!(unresolved.reduce(1), Err(PlanError::UnresolvedQuantity));
}

#[test]
fn multiplying_scales_the_stock_and_the_class() {
    let mut r = Reservoir::new(&stock("a", 17)).unwrap();
    assert_eq!(r.multiply(3), Ok(()));
    let token = r.contents.as_ref().unwrap();
    assert_eq!(token.concrete_quantity, Some(51));
    assert_eq!(token.quantity, NumberToken::Constant(51));
    assert_eq!(r.reservoir_size, ReservoirSize::Large);
    assert_eq!(r.multiply(2), Err(PlanError::CapacityExceeded { needed: 102 }));
    assert_eq!(r.contents.as_ref().unwrap().concrete_quantity, Some(51));
    let mut empty = Reservoir::empty();
    assert_eq!(empty.multiply(7), Ok(()));
    assert!(empty.contents.is_none());
    let mut huge = Reservoir::new(&stock("a", 100)).unwrap();
    assert_eq!(
        huge.multiply(u32::MAX),
        Err(PlanError::CapacityExceeded { needed: 100 * (u32::MAX as u64) })
    );
}

#[test]
fn a_bank_is_filled_up_to_ten_reservoirs() {
    let state = bank(vec![stock("a", 50), stock("b", 17)]);
    assert_eq!(state.chems.len(), 10);
    assert_eq!(held(&state, 0), Some(50));
    assert_eq!(held(&state, 1), Some(17));
    for i in 2..10 {
        assert!(state.chems[i].contents.is_none());
        assert_eq!(state.chems[i].reservoir_size, ReservoirSize::Empty);
    }
    let many: Vec<ChemToken> = (0..12).map(|i| stock(&format!("r{}", i), 1)).collect();
    assert_eq!(bank(many).chems.len(), 12);
    assert_eq!(ChemState::default().chems.len(), 10);
}

#[test]
fn a_compound_is_found_in_the_first_reservoir_that_holds_it() {
    let state = bank(vec![stock("a", 50), stock("b", 17), stock("a", 3)]);
    let a = Chemical { name: Some("a".to_string()), chemicals: vec![], temp: Some(400) };
    let b = Chemical { name: Some("b".to_string()), chemicals: vec![], temp: None };
    let c = Chemical { name: Some("c".to_string()), chemicals: vec![], temp: None };
    assert_eq!(state.find_chem(&a), Some(0));
    assert_eq!(state.find_chem(&b), Some(1));
    assert_eq!(state.find_chem(&c), None);
}

#[test]
fn the_first_empty_reservoir_is_found() {
    let mut state = bank(vec![stock("a", 50), stock("b", 17)]);
    assert_eq!(state.first_empty(), Ok(2));
    state.clear(0);
    assert_eq!(state.first_empty(), Ok(0));
    let full = bank((0..10).map(|i| stock(&format!("r{}", i), 1)).collect());
    assert_eq!(full.first_empty(), Err(PlanError::NoEmptyReservoir));
}

#[test]
fn occupied_reservoirs_are_counted() {
    let mut state = bank(vec![stock("a", 50), stock("b", 17), stock("c", 1)]);
    assert_eq!(state.count_nonempty(), 3);
    state.clear(1);
    assert_eq!(state.count_nonempty(), 2);
    assert_eq!(ChemState::default().count_nonempty(), 0);
    let full = bank((0..10).map(|i| stock(&format!("r{}", i), 1)).collect());
    assert_eq!(full.count_nonempty(), 10);
}

#[test]
fn the_bank_adds_up_what_it_holds() {
    let state = bank(vec![stock("a", 50), stock("b", 17)]);
    assert_eq!(state.size(), Ok(67));
    assert_eq!(ChemState::default().size(), Ok(0));
    let mut unresolved = bank(vec![stock("a", 50), stock("b", 17)]);
    unresolved.chems[1].contents.as_mut().unwrap().concrete_quantity = None;
    assert_eq!(unresolved.size(), Err(PlanError::UnresolvedQuantity));
}

#[test]
fn reservoirs_of_the_bank_are_changed_by_position() {
    let mut state = bank(vec![stock("a", 50), stock("b", 17)]);
    assert_eq!(state.reduce(0, 20), Ok(()));
    assert_eq!(held(&state, 0), Some(30));
    assert_eq!(held(&state, 1), Some(17));
    assert_eq!(state.reduce(1, 18), Err(PlanError::InsufficientStock { have: 17, need: 18 }));
    assert_eq!(held(&state, 1), Some(17));
    assert_eq!(state.replace(4, &stock("c", 70)), Ok(()));
    assert_eq!(held(&state, 4), Some(70));
    assert_eq!(state.chems[4].reservoir_size, ReservoirSize::Large);
    assert_eq!(state.replace(5, &stock("d", 170)), Err(PlanError::CapacityExceeded { needed: 170 }));
    assert!(state.chems[5].contents.is_none());
    state.clear(4);
    assert!(state.chems[4].contents.is_none());
    assert_eq!(state.chems[4].reservoir_size, ReservoirSize::Large);
    let copy = state.get(0);
    assert_eq!(copy.contents.unwrap().concrete_quantity, Some(30));
    assert_eq!(state.get_sizes(), vec![50, 50, 0, 0, 100, 0, 0, 0, 0, 0]);
}

#[test]
fn multiplying_the_bank_is_all_or_nothing() {
    let mut state = bank(vec![stock("a", 10), stock("b", 40)]);
    assert_eq!(state.multiply(2), Ok(()));
    assert_eq!(held(&state, 0), Some(20));
    assert_eq!(held(&state, 1), Some(80));
    assert_eq!(state.get_sizes(), vec![50, 100, 0, 0, 0, 0, 0, 0, 0, 0]);
    assert_eq!(state.multiply(2), Err(PlanError::CapacityExceeded { needed: 160 }));
    assert_eq!(held(&state, 0), Some(20));
    assert_eq!(held(&state, 1), Some(80));
}

#[test]
fn padding_moves_the_occupied_reservoirs_to_the_front() {
    let mut state = bank(vec![stock("a", 50), stock("b", 17), stock("c", 60)]);
    state.clear(1);
    state.pad();
    assert_eq!(state.chems.len(), 10);
    assert_eq!(held(&state, 0), Some(50));
    assert_eq!(held(&state, 1), Some(60));
    assert_eq!(state.chems[1].reservoir_size, ReservoirSize::Large);
    assert!(state.chems[2].contents.is_none());
    assert_eq!(state.get_sizes(), vec![50, 100, 0, 0, 0, 0, 0, 0, 0, 0]);
}

#[test]
fn the_bank_is_written_reservoir_by_reservoir() {
    let mut state = ChemState::new(&vec![
        Reservoir::new(&stock("water", 50)).unwrap(),
        Reservoir::new(&mixed(7, vec![stock("a", 7)])).unwrap(),
    ]);
    state.chems.truncate(3);
    state.chems[0].contents.as_mut().unwrap().quantity =
        NumberToken::Calculated(NumberOperator::new(1, 3));
    assert_eq!(state.to_text(), "[,  r1:($1/3) water,  r2:(7) None,  r3:(0) None]");
}

#[test]
fn reservoirs_and_banks_are_equal_by_class_and_structure() {
    let small = Reservoir::new(&stock("a", 17)).unwrap();
    let mut other = Reservoir::new(&stock("a", 17)).unwrap();
    assert!(small == other);
    other.contents.as_mut().unwrap().concrete_quantity = Some(3);
    other.contents.as_mut().unwrap().priority = 4;
    assert!(small == other);
    other.reservoir_size = ReservoirSize::Large;
    assert!(small != other);
    assert!(small != Reservoir::new(&stock("b", 17)).unwrap());
    assert!(small != Reservoir::new(&stock("a", 18)).unwrap());
    assert!(small != Reservoir::empty());
    assert!(Reservoir::empty() == Reservoir::empty());
    let one = bank(vec![stock("a", 50), stock("b", 17)]);
    let mut two = one.clone();
    assert!(one == two);
    assert!(one.same_as(&two));
    two.clear(1);
    assert!(one != two);
    let mut longer = one.clone();
    longer.chems.push(Reservoir::empty());
    assert!(one != longer);
}

#[test]
fn chains_of_actions_are_copied_and_compared() {
    let combine = AbstractAction::Combine { vec: vec![stock("a", 1), stock("b", 2)], temp: Some(300) };
    let copy = combine.clone();
    assert!(combine == copy);
    assert!(combine != AbstractAction::Combine { vec: vec![stock("a", 1)], temp: Some(300) });
    assert!(combine != AbstractAction::Combine { vec: vec![stock("a", 1), stock("b", 2)], temp: None });
    assert!(combine != AbstractAction::Combine { vec: vec![stock("a", 1), stock("b", 3)], temp: Some(300) });
    let steps = AbstractActionChain { chain: vec![combine, copy] };
    let again = steps.clone();
    assert!(steps == again);
    assert!(steps != AbstractActionChain::default());
    assert!(AbstractActionChain::default() == AbstractActionChain::default());
    let log = ActionChain {
        intial_state: bank(vec![stock("a", 50)]),
        chain: vec![Action::Eject { target: 1 }, Action::Heat { temp: 300, target: 2 }],
    };
    let mut other = log.clone();
    assert!(log == other);
    other.chain[1] = Action::Heat { temp: 301, target: 2 };
    assert!(log != other);
    let mut other = log.clone();
    other.intial_state.clear(0);
    assert!(log != other);
    assert!(log != ActionChain::default());
    assert!(ActionChain::default() == ActionChain::default());
}
