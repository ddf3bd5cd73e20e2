use chem_planner::chemicals::{
    div_up, ChemToken, Chemical, NumberOperator, NumberToken, PlanError,
};

fn reagent(name: &str, quantity: NumberToken) -> ChemToken {
    ChemToken {
        quantity,
        chemical: Chemical { name: Some(name.to_string()), chemicals: vec![], temp: None },
        priority: 0,
        concrete_quantity: None,
    }
}

fn mixture(quantity: NumberToken, parts: Vec<ChemToken>) -> ChemToken {
    ChemToken {
        quantity,
        chemical: Chemical { name: None, chemicals: parts, temp: None },
        priority: 0,
        concrete_quantity: None,
    }
}

fn fraction(n: u32, d: u32) -> NumberToken {
    NumberToken::Calculated(NumberOperator::new(n, d))
}

#[test]
fn division_rounds_up() {
    assert_eq!(div_up(50, 3), 17);
    assert_eq!(div_up(51, 3), 17);
    assert_eq!(div_up(52, 3), 18);
    assert_eq!(div_up(0, 7), 0);
    assert_eq!(div_up(1, 7), 1);
    assert_eq!(div_up(u32::MAX, 1), u32::MAX);
    assert_eq!(div_up(u32::MAX, u32::MAX), 1);
    assert_eq!(div_up(u32::MAX, 2), 2147483648);
}

#[test]
fn a_third_of_fifty_is_seventeen() {
    assert_eq!(fraction(1, 3).calculate(Some(50)), Ok(17));
    assert_eq!(fraction(2, 3).calculate(Some(50)), Ok(34));
    assert_eq!(fraction(1, 1).calculate(Some(50)), Ok(50));
    assert_eq!(fraction(0, 5).calculate(Some(50)), Ok(0));
    assert_eq!(fraction(3, 1).calculate(Some(0)), Ok(0));
}

#[test]
fn a_constant_needs_no_parent() {
    assert_eq!(NumberToken::Constant(42).calculate(None), Ok(42));
    assert_eq!(NumberToken::Constant(42).calculate(Some(7)), Ok(42));
}

#[test]
fn a_fraction_without_parent_is_unresolved() {
    assert_eq!(fraction(1, 3).calculate(None), Err(PlanError::UnresolvedQuantity));
}

#[test]
fn a_fraction_over_zero_is_refused() {
    assert_eq!(fraction(1, 0).calculate(Some(50)), Err(PlanError::ZeroDenominator));
}

#[test]
fn a_fraction_that_does_not_fit_is_refused() {
    assert_eq!(
        fraction(2, 1).calculate(Some(u32::MAX)),
        Err(PlanError::CapacityExceeded { needed: 2 * (u32::MAX as u64) })
    );
    assert_eq!(fraction(1, 1).calculate(Some(u32::MAX)), Ok(u32::MAX));
}

#[test]
fn kinds_of_quantity_are_told_apart() {
    assert!(NumberToken::Constant(1).is_constant());
    assert!(!fraction(1, 2).is_constant());
    assert_eq!(NumberToken::default(), NumberToken::Constant(0));
}

#[test]
fn quantities_are_written_as_in_a_recipe() {
    assert_eq!(NumberToken::Constant(0).as_text(), "0");
    assert_eq!(NumberToken::Constant(50).as_text(), "50");
    assert_eq!(NumberToken::Constant(4294967295).as_text(), "4294967295");
    assert_eq!(fraction(1, 3).as_text(), "$1/3");
    assert_eq!(fraction(12, 305).as_text(), "$12/305");
}

#[test]
fn resolution_goes_from_the_top_down() {
    let mut recipe = mixture(
        NumberToken::Constant(50),
        vec![
            reagent("a", fraction(1, 1)),
            mixture(fraction(1, 3), vec![reagent("b", fraction(1, 2)), reagent("c", NumberToken::Constant(4))]),
        ],
    );
    assert_eq!(recipe.set_concrete_quantity(0), Ok(()));
    assert_eq!(recipe.concrete_quantity, Some(50));
    assert_eq!(recipe.chemical.chemicals[0].concrete_quantity, Some(50));
    let inner = &recipe.chemical.chemicals[1];
    assert_eq!(inner.concrete_quantity, Some(17));
    assert_eq!(inner.chemical.chemicals[0].concrete_quantity, Some(9));
    assert_eq!(inner.chemical.chemicals[1].concrete_quantity, Some(4));
}

#[test]
fn a_fraction_is_resolved_against_the_given_parent() {
    let mut part = reagent("b", fraction(1, 3));
    assert_eq!(part.set_concrete_quantity(50), Ok(()));
    assert_eq!(part.concrete_quantity, Some(17));
}

#[test]
fn resolving_twice_changes_nothing() {
    let mut recipe = mixture(
        NumberToken::Constant(50),
        vec![reagent("a", fraction(1, 1)), reagent("b", fraction(1, 3))],
    );
    recipe.set_concrete_quantity(0).unwrap();
    let once = (
        recipe.concrete_quantity,
        recipe.chemical.chemicals[0].concrete_quantity,
        recipe.chemical.chemicals[1].concrete_quantity,
    );
    recipe.set_concrete_quantity(0).unwrap();
    let twice = (
        recipe.concrete_quantity,
        recipe.chemical.chemicals[0].concrete_quantity,
        recipe.chemical.chemicals[1].concrete_quantity,
    );
    assert_eq!(once, (Some(50), Some(50), Some(17)));
    assert_eq!(once, twice);
}

#[test]
fn a_failed_resolution_leaves_the_token_as_it_was() {
    let mut recipe = mixture(
        NumberToken::Constant(50),
        vec![reagent("a", fraction(1, 1)), reagent("b", fraction(1, 0))],
    );
    assert_eq!(recipe.set_concrete_quantity(0), Err(PlanError::ZeroDenominator));
    assert_eq!(recipe.concrete_quantity, None);
    assert_eq!(recipe.chemical.chemicals[0].concrete_quantity, None);
}

#[test]
fn the_copy_is_resolved_and_the_token_is_not() {
    let recipe = mixture(NumberToken::Constant(9), vec![reagent("a", fraction(1, 2))]);
    let copy = recipe.resolved(None).unwrap();
    assert_eq!(copy.concrete_quantity, Some(9));
    assert_eq!(copy.chemical.chemicals[0].concrete_quantity, Some(5));
    assert_eq!(recipe.concrete_quantity, None);
    let relative = reagent("a", fraction(1, 2));
    assert_eq!(relative.resolved(None).unwrap_err(), PlanError::UnresolvedQuantity);
}

#[test]
fn the_size_of_a_reagent_is_its_own_quantity() {
    let mut a = reagent("a", NumberToken::Constant(30));
    assert_eq!(a.size(), Err(PlanError::UnresolvedQuantity));
    a.set_concrete_quantity(0).unwrap();
    assert_eq!(a.size(), Ok(30));
}

#[test]
fn the_size_of_a_mixture_is_the_sum_of_its_parts() {
    let mut recipe = mixture(
        NumberToken::Constant(50),
        vec![reagent("a", fraction(1, 1)), reagent("b", fraction(1, 3))],
    );
    assert_eq!(recipe.size(), Err(PlanError::UnresolvedQuantity));
    recipe.set_concrete_quantity(0).unwrap();
    assert_eq!(recipe.size(), Ok(67));
    recipe.chemical.chemicals[1].concrete_quantity = None;
    assert_eq!(recipe.size(), Err(PlanError::UnresolvedQuantity));
}

#[test]
fn a_size_above_all_numbers_is_refused() {
    let mut recipe = mixture(
        NumberToken::Constant(1),
        vec![
            reagent("a", NumberToken::Constant(u32::MAX)),
            reagent("b", NumberToken::Constant(2)),
        ],
    );
    recipe.set_concrete_quantity(0).unwrap();
    assert_eq!(
        recipe.size(),
        Err(PlanError::CapacityExceeded { needed: u32::MAX as u64 + 2 })
    );
}

#[test]
fn clearing_the_parts_keeps_the_token_itself() {
    let mut recipe = mixture(
        NumberToken::Constant(50),
        vec![reagent("a", fraction(1, 1)), reagent("b", fraction(1, 3))],
    );
    recipe.set_concrete_quantity(0).unwrap();
    recipe.set_children_abstract();
    assert_eq!(recipe.concrete_quantity, Some(50));
    assert_eq!(recipe.chemical.chemicals[0].concrete_quantity, None);
    assert_eq!(recipe.chemical.chemicals[1].concrete_quantity, None);
    assert_eq!(recipe.chemical.chemicals[1].quantity, fraction(1, 3));
}

#[test]
fn equality_is_by_name_and_parts() {
    let mut hot = Chemical { name: Some("a".to_string()), chemicals: vec![], temp: Some(300) };
    let cold = Chemical { name: Some("a".to_string()), chemicals: vec![], temp: None };
    assert!(hot.same_as(&cold));
    assert!(hot == cold);
    hot.name = Some("b".to_string());
    assert!(!hot.same_as(&cold));
    assert!(hot != cold);
    let unnamed = Chemical { name: None, chemicals: vec![], temp: None };
    assert!(!unnamed.same_as(&cold));
    assert!(unnamed.same_as(&Chemical::default()));
}

#[test]
fn equality_of_tokens_ignores_priority_and_concrete_quantity() {
    let mut first = reagent("a", NumberToken::Constant(5));
    let mut second = reagent("a", NumberToken::Constant(5));
    first.priority = 3;
    second.concrete_quantity = Some(5);
    assert!(first.same_as(&second));
    assert!(first == second);
    second.quantity = NumberToken::Constant(6);
    assert!(!first.same_as(&second));
    let one = mixture(NumberToken::Constant(1), vec![reagent("a", fraction(1, 2))]);
    let other = mixture(NumberToken::Constant(1), vec![reagent("a", fraction(1, 3))]);
    let longer = mixture(
        NumberToken::Constant(1),
        vec![reagent("a", fraction(1, 2)), reagent("b", fraction(1, 2))],
    );
    assert!(one.same_as(&one.clone()));
    assert!(!one.same_as(&other));
    assert!(!one.same_as(&longer));
}

#[test]
fn absolute_quantities_add_up() {
    let mut first = reagent("a", NumberToken::Constant(5));
    first.concrete_quantity = Some(5);
    let second = reagent("a", NumberToken::Constant(7));
    assert!(first.combinable(&second));
    assert_eq!(first.combine(&second), Ok(()));
    assert_eq!(first.quantity, NumberToken::Constant(12));
    assert_eq!(first.concrete_quantity, None);
}

#[test]
fn fractions_of_one_denominator_add_up() {
    let mut first = reagent("a", fraction(1, 3));
    let second = reagent("a", fraction(2, 3));
    assert_eq!(first.combine(&second), Ok(()));
    assert_eq!(first.quantity, fraction(3, 3));
}

#[test]
fn quantities_of_different_kinds_do_not_combine() {
    let mut absolute = reagent("a", NumberToken::Constant(5));
    let relative = reagent("a", fraction(1, 3));
    assert!(!absolute.combinable(&relative));
    assert_eq!(
        absolute.combine(&relative),
        Err(PlanError::IncompatibleQuantityUnits {
            left: NumberToken::Constant(5),
            right: fraction(1, 3)
        })
    );
    assert_eq!(absolute.quantity, NumberToken::Constant(5));
    let mut thirds = reagent("a", fraction(1, 3));
    let halves = reagent("a", fraction(1, 2));
    assert!(thirds.combinable(&halves));
    assert_eq!(
        thirds.combine(&halves),
        Err(PlanError::IncompatibleQuantityUnits { left: fraction(1, 3), right: fraction(1, 2) })
    );
    assert_eq!(thirds.quantity, fraction(1, 3));
    let mut relative = reagent("a", fraction(1, 3));
    assert_eq!(
        relative.combine(&reagent("a", NumberToken::Constant(5))),
        Err(PlanError::IncompatibleQuantityUnits {
            left: fraction(1, 3),
            right: NumberToken::Constant(5)
        })
    );
}

#[test]
fn different_compounds_do_not_combine() {
    let mut a = reagent("a", NumberToken::Constant(5));
    let b = reagent("b", NumberToken::Constant(5));
    assert!(!a.combinable(&b));
    assert_eq!(a.combine(&b), Err(PlanError::CompoundMismatch));
}

#[test]
fn sums_that_do_not_fit_are_refused() {
    let mut a = reagent("a", NumberToken::Constant(u32::MAX));
    assert_eq!(
        a.combine(&reagent("a", NumberToken::Constant(1))),
        Err(PlanError::CapacityExceeded { needed: u32::MAX as u64 + 1 })
    );
    let mut f = reagent("a", fraction(u32::MAX, 3));
    assert_eq!(
        f.combine(&reagent("a", fraction(5, 3))),
        Err(PlanError::CapacityExceeded { needed: u32::MAX as u64 + 5 })
    );
}

#[test]
fn the_default_token_is_nothing_of_nothing() {
    let token = ChemToken::default();
    assert_eq!(token.quantity, NumberToken::Constant(0));
    assert_eq!(token.priority, 0);
    assert_eq!(token.concrete_quantity, None);
    assert_eq!(token.chemical.name, None);
    assert_eq!(token.chemical.temp, None);
    assert!(token.chemical.chemicals.is_empty());
}
