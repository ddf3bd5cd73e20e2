use chem_planner::calculator::reservoir::ReservoirSize;
use chem_planner::calculator::stock::{
    compute_initial_state, count_raw_chems_recursive, get_temps_recursive,
};
use chem_planner::calculator::tree::{ChemTree, ChemTreeBranch};
use chem_planner::chemicals::{ChemToken, Chemical, NumberOperator, NumberToken, PlanError};

fn reagent(name: &str, quantity: NumberToken) -> ChemToken {
    ChemToken {
        quantity,
        chemical: Chemical { name: Some(name.to_string()), chemicals: vec![], temp: None },
        priority: 0,
        concrete_quantity: None,
    }
}

fn mixture(quantity: NumberToken, parts: Vec<ChemToken>, temp: Option<u32>) -> ChemToken {
    ChemToken {
        quantity,
        chemical: Chemical { name: None, chemicals: parts, temp },
        priority: 0,
        concrete_quantity: None,
    }
}

fn half() -> NumberToken {
    NumberToken::Calculated(NumberOperator::new(1, 2))
}

/// 60:($/2:(10:a;20:b;);$/2:c;)
fn nested() -> ChemToken {
    mixture(
        NumberToken::Constant(60),
        vec![
            mixture(
                half(),
                vec![
                    reagent("a", NumberToken::Constant(10)),
                    reagent("b", NumberToken::Constant(20)),
                ],
                Some(300),
            ),
            reagent("c", half()),
        ],
        Some(400),
    )
}

fn ids(branches: &Vec<ChemTreeBranch>) -> Vec<u32> {
    branches.iter().map(|b| b.id).collect()
}

#[test]
fn identifiers_are_given_from_the_leaves_up() {
    let mut counter = 0;
    let root = ChemTreeBranch::deconstruct(&nested(), &mut counter);
    assert_eq!(counter, 5);
    assert_eq!(root.id, 4);
    assert_eq!(ids(&root.children), vec![2, 3]);
    assert_eq!(ids(&root.children[0].children), vec![0, 1]);
    assert!(root.children[1].children.is_empty());
    assert_eq!(root.children[0].children[1].chem.chemical.name, Some("b".to_string()));
    let mut late = u32::MAX;
    let single = ChemTreeBranch::deconstruct(&reagent("a", NumberToken::Constant(1)), &mut late);
    assert_eq!(single.id, u32::MAX);
    assert_eq!(late, 0);
}

#[test]
fn leaves_are_listed_from_left_to_right() {
    let mut counter = 0;
    let root = ChemTreeBranch::deconstruct(&nested(), &mut counter);
    assert_eq!(ids(&root.get_leaves()), vec![0, 1, 3]);
    assert!(!root.is_leaf());
    assert!(root.children[1].is_leaf());
    let single = ChemTreeBranch::deconstruct(&reagent("a", NumberToken::Constant(1)), &mut counter);
    assert_eq!(ids(&single.get_leaves()), vec![5]);
    assert!(single.is_leaf());
    let mut more = Vec::new();
    root.get_leaves_rec(&mut more);
    root.get_leaves_rec(&mut more);
    assert_eq!(ids(&more), vec![0, 1, 3, 0, 1, 3]);
}

#[test]
fn a_leaf_is_removed_by_its_identifier() {
    let mut counter = 0;
    let mut root = ChemTreeBranch::deconstruct(&nested(), &mut counter);
    let leaves = root.get_leaves();
    assert!(root.remove_leaf(&leaves[1]));
    assert_eq!(ids(&root.get_leaves()), vec![0, 3]);
    assert!(!root.remove_leaf(&leaves[1]));
    assert!(root.remove_leaf(&leaves[2]));
    assert_eq!(ids(&root.children), vec![2]);
    assert!(root.remove_leaf(&leaves[0]));
    assert_eq!(ids(&root.get_leaves()), vec![2]);
    let inner = root.get_leaves();
    assert!(root.remove_leaf(&inner[0]));
    assert!(root.is_leaf());
    let only = root.get_leaves();
    assert_eq!(ids(&only), vec![4]);
    assert!(!root.remove_leaf(&only[0]));
    assert!(root.is_leaf());
}

#[test]
fn nodes_are_found_by_their_compound() {
    let mut counter = 0;
    let root = ChemTreeBranch::deconstruct(
        &mixture(
            NumberToken::Constant(9),
            vec![
                reagent("a", NumberToken::Constant(1)),
                mixture(half(), vec![reagent("a", half()), reagent("b", half())], None),
            ],
            None,
        ),
        &mut counter,
    );
    let a = Chemical { name: Some("a".to_string()), chemicals: vec![], temp: None };
    let z = Chemical { name: Some("z".to_string()), chemicals: vec![], temp: None };
    assert_eq!(ids(&root.get_branches_with_chem(&a)), vec![0, 1]);
    assert_eq!(ids(&root.get_branches_with_chem(&z)), Vec::<u32>::new());
    assert_eq!(ids(&root.get_branches_with_chem(&root.chem.chemical)), vec![4]);
    let mut more = vec![];
    root.get_branches_with_chem_rec(&a, &mut more);
    root.get_branches_with_chem_rec(&root.children[1].chem.chemical, &mut more);
    assert_eq!(ids(&more), vec![0, 1, 3]);
}

#[test]
fn a_token_is_replaced_by_identifier() {
    let mut counter = 0;
    let mut root = ChemTreeBranch::deconstruct(&nested(), &mut counter);
    let new = reagent("z", NumberToken::Constant(7));
    assert!(root.replace_chem_in_branch(&new, 1));
    assert_eq!(root.children[0].children[1].chem.chemical.name, Some("z".to_string()));
    assert_eq!(root.children[0].children[0].chem.chemical.name, Some("a".to_string()));
    assert!(!root.replace_chem_in_branch(&new, 17));
    assert!(root.replace_chem_in_branch(&new, 4));
    assert_eq!(root.chem.chemical.name, Some("z".to_string()));
    assert_eq!(ids(&root.children), vec![2, 3]);
}

#[test]
fn a_dissolved_node_gives_its_children_to_its_parent() {
    let mut counter = 0;
    let mut root = ChemTreeBranch::deconstruct(&nested(), &mut counter);
    let inner = root.children[0].clone();
    assert!(root.dissolve_branch(&inner));
    assert_eq!(ids(&root.children), vec![3, 0, 1]);
    assert!(!root.dissolve_branch(&inner));
    let mut deeper = ChemTreeBranch::deconstruct(
        &mixture(NumberToken::Constant(1), vec![nested()], None),
        &mut counter,
    );
    let target = deeper.children[0].children[0].clone();
    assert!(deeper.dissolve_branch(&target));
    assert_eq!(ids(&deeper.children), vec![9]);
    assert_eq!(ids(&deeper.children[0].children), vec![8, 5, 6]);
    let top = deeper.clone();
    assert!(!deeper.dissolve_branch(&top));
}

#[test]
fn quantities_of_a_tree_are_resolved_from_the_root_down() {
    let mut counter = 0;
    let mut root = ChemTreeBranch::deconstruct(&nested(), &mut counter);
    assert_eq!(root.concretize_quantites(), Ok(()));
    assert_eq!(root.chem.concrete_quantity, Some(60));
    assert_eq!(root.children[0].chem.concrete_quantity, Some(30));
    assert_eq!(root.children[1].chem.concrete_quantity, Some(30));
    assert_eq!(root.children[0].children[0].chem.concrete_quantity, Some(10));
    assert_eq!(root.children[0].children[1].chem.concrete_quantity, Some(20));
    assert_eq!(root.chem.chemical.chemicals[0].chemical.chemicals[1].concrete_quantity, Some(20));
    let once = root.clone();
    assert_eq!(root.concretize_quantites(), Ok(()));
    assert_eq!(root.children[0].chem.concrete_quantity, once.children[0].chem.concrete_quantity);
    assert_eq!(root.children[1].chem.concrete_quantity, once.children[1].chem.concrete_quantity);
    let copy = once.concretized(None).unwrap();
    assert_eq!(copy.children[0].children[0].chem.concrete_quantity, Some(10));
    assert_eq!(ids(&copy.children), vec![2, 3]);
}

#[test]
fn a_relative_root_cannot_be_resolved() {
    let mut counter = 0;
    let mut root = ChemTreeBranch::deconstruct(&reagent("a", half()), &mut counter);
    assert_eq!(root.concretize_quantites(), Err(PlanError::UnresolvedQuantity));
    assert_eq!(root.chem.concrete_quantity, None);
    assert_eq!(
        ChemTree::deconstruct(&reagent("a", half())).unwrap_err(),
        PlanError::UnresolvedQuantity
    );
    let zero = mixture(
        NumberToken::Constant(10),
        vec![reagent("a", NumberToken::Calculated(NumberOperator::new(1, 0)))],
        None,
    );
    assert_eq!(ChemTree::deconstruct(&zero).unwrap_err(), PlanError::ZeroDenominator);
}

#[test]
fn the_stock_holds_what_the_recipe_takes() {
    let tree = ChemTree::deconstruct(&nested()).unwrap();
    assert_eq!(tree.root.id, 4);
    let bank = &tree.initial_state;
    assert_eq!(bank.chems.len(), 10);
    let names: Vec<Option<String>> = bank
        .chems
        .iter()
        .map(|r| r.contents.as_ref().and_then(|t| t.chemical.name.clone()))
        .collect();
    assert_eq!(names[0], Some("a".to_string()));
    assert_eq!(names[1], Some("b".to_string()));
    assert_eq!(names[2], Some("c".to_string()));
    assert_eq!(names[3], None);
    let amounts: Vec<Option<u32>> = bank
        .chems
        .iter()
        .map(|r| r.contents.as_ref().and_then(|t| t.concrete_quantity))
        .collect();
    assert_eq!(amounts[..4], [Some(10), Some(20), Some(30), None]);
    let token = bank.chems[1].contents.as_ref().unwrap();
    assert_eq!(token.quantity, NumberToken::Constant(20));
    assert_eq!(token.priority, 0);
    assert_eq!(bank.get_sizes(), vec![50, 50, 50, 0, 0, 0, 0, 0, 0, 0]);
}

#[test]
fn one_reagent_named_twice_has_one_reservoir() {
    let recipe = mixture(
        NumberToken::Constant(90),
        vec![
            reagent("a", NumberToken::Constant(30)),
            mixture(half(), vec![reagent("b", half()), reagent("a", half())], None),
        ],
        None,
    );
    let resolved = recipe.resolved(None).unwrap();
    let bank = compute_initial_state(&resolved).unwrap();
    let a = bank.chems[0].contents.as_ref().unwrap();
    assert_eq!(a.chemical.name, Some("a".to_string()));
    assert_eq!(a.concrete_quantity, Some(30 + 23));
    assert_eq!(bank.chems[0].reservoir_size, ReservoirSize::Large);
    let b = bank.chems[1].contents.as_ref().unwrap();
    assert_eq!(b.chemical.name, Some("b".to_string()));
    assert_eq!(b.concrete_quantity, Some(23));
    assert!(bank.chems[2].contents.is_none());
    let totals = count_raw_chems_recursive(vec![], &resolved).unwrap();
    assert_eq!(totals.len(), 2);
    assert_eq!(totals[0].total, 53);
    assert_eq!(totals[1].total, 23);
    let again = count_raw_chems_recursive(totals, &resolved).unwrap();
    assert_eq!(again[0].total, 106);
    assert_eq!(again[1].total, 46);
}

#[test]
fn stock_that_fits_no_reservoir_is_refused() {
    let recipe = reagent("a", NumberToken::Constant(150));
    assert_eq!(
        ChemTree::deconstruct(&recipe).unwrap_err(),
        PlanError::CapacityExceeded { needed: 150 }
    );
    let unresolved = reagent("a", NumberToken::Constant(15));
    assert_eq!(compute_initial_state(&unresolved).unwrap_err(), PlanError::UnresolvedQuantity);
    assert_eq!(
        count_raw_chems_recursive(vec![], &unresolved).unwrap_err(),
        PlanError::UnresolvedQuantity
    );
    let recipe = mixture(
        NumberToken::Constant(1),
        vec![
            reagent("a", NumberToken::Constant(u32::MAX)),
            reagent("a", NumberToken::Constant(1)),
        ],
        None,
    );
    assert_eq!(
        compute_initial_state(&recipe.resolved(None).unwrap()).unwrap_err(),
        PlanError::CapacityExceeded { needed: u32::MAX as u64 + 1 }
    );
}

#[test]
fn temperatures_are_noted_once_each() {
    let recipe = mixture(
        NumberToken::Constant(1),
        vec![nested(), mixture(half(), vec![], Some(300)), nested()],
        Some(500),
    );
    let mut temps = vec![400];
    get_temps_recursive(&mut temps, &recipe);
    assert_eq!(temps, vec![400, 500, 300]);
    let mut none = vec![];
    get_temps_recursive(&mut none, &reagent("a", half()));
    assert_eq!(none, Vec::<u32>::new());
}

#[test]
fn the_default_tree_is_one_node_over_an_empty_bank() {
    let tree = ChemTree::default();
    assert!(tree.root.is_leaf());
    assert_eq!(tree.root.id, 0);
    assert_eq!(tree.initial_state.count_nonempty(), 0);
    assert_eq!(tree.initial_state.chems.len(), 10);
    let copy = tree.clone();
    assert_eq!(copy.root.id, 0);
}

/// 90:(30:a;$/2:(b;<a>))
fn asked_twice(inner_a: NumberToken) -> ChemToken {
    mixture(
        NumberToken::Constant(90),
        vec![
            reagent("a", NumberToken::Constant(30)),
            mixture(half(), vec![reagent("b", half()), reagent("a", inner_a)], None),
        ],
        None,
    )
}

#[test]
fn buckets_add_up_what_is_asked_for_in_several_places() {
    let mut counter = 0;
    let root = ChemTreeBranch::deconstruct(&asked_twice(NumberToken::Constant(5)), &mut counter);
    let buckets = root.bucket_chems().unwrap();
    let quantities: Vec<NumberToken> = buckets.iter().map(|t| t.quantity).collect();
    assert_eq!(
        quantities,
        vec![NumberToken::Constant(90), NumberToken::Constant(35), half(), half()]
    );
    assert_eq!(buckets[1].chemical.name, Some("a".to_string()));
    assert_eq!(buckets[3].chemical.name, Some("b".to_string()));
    let again = root.bucket_chems_recursive(buckets).unwrap();
    assert_eq!(again.len(), 4);
    assert_eq!(again[1].quantity, NumberToken::Constant(70));
    let mixed = ChemTreeBranch::deconstruct(&asked_twice(half()), &mut counter);
    assert_eq!(
        mixed.bucket_chems().unwrap_err(),
        PlanError::IncompatibleQuantityUnits { left: NumberToken::Constant(30), right: half() }
    );
}

#[test]
fn merging_puts_what_is_asked_for_twice_into_the_first_leaf() {
    let mut counter = 0;
    let mut root = ChemTreeBranch::deconstruct(&asked_twice(NumberToken::Constant(5)), &mut counter);
    assert_eq!(root.simplify(), Ok(()));
    assert_eq!(ids(&root.children), vec![0, 3]);
    assert_eq!(root.children[0].chem.quantity, NumberToken::Constant(35));
    assert_eq!(root.children[0].chem.concrete_quantity, None);
    assert_eq!(ids(&root.children[1].children), vec![1]);
    assert_eq!(root.children[1].chem.chemical.chemicals.len(), 2);
    let mut single = ChemTreeBranch::deconstruct(&reagent("a", half()), &mut counter);
    assert_eq!(single.simplify(), Ok(()));
    assert!(single.is_leaf());
}

#[test]
fn a_merge_that_fails_leaves_the_tree_as_it_was() {
    let mut counter = 0;
    let mut root = ChemTreeBranch::deconstruct(&asked_twice(half()), &mut counter);
    assert_eq!(
        root.simplify(),
        Err(PlanError::IncompatibleQuantityUnits { left: NumberToken::Constant(30), right: half() })
    );
    assert_eq!(ids(&root.children), vec![0, 3]);
    assert_eq!(ids(&root.children[1].children), vec![1, 2]);
    assert_eq!(root.children[0].chem.quantity, NumberToken::Constant(30));
}

#[test]
fn a_merge_that_loses_its_leaf_is_reported() {
    let node = |name: &str, id: u32, children: Vec<ChemTreeBranch>| ChemTreeBranch {
        chem: reagent(name, NumberToken::Constant(1)),
        children,
        id,
    };
    let mut root = node(
        "r",
        0,
        vec![
            node("e", 5, vec![node("d", 7, vec![])]),
            node("d", 5, vec![]),
            node("w", 9, vec![node("v", 10, vec![])]),
        ],
    );
    assert_eq!(root.simplify(), Err(PlanError::MissingNode { id: 7 }));
    assert_eq!(ids(&root.children), vec![5, 5, 9]);
    assert_eq!(ids(&root.children[0].children), vec![7]);
}

#[test]
fn trees_are_equal_by_identifier_and_structure() {
    let mut counter = 0;
    let root = ChemTreeBranch::deconstruct(&nested(), &mut counter);
    let mut copy = root.clone();
    assert!(root == copy);
    assert!(root.same_as(&copy));
    copy.chem.priority = 9;
    copy.chem.concrete_quantity = Some(1);
    copy.chem.chemical.temp = None;
    assert!(root == copy);
    copy.children[0].children[1].id = 8;
    assert!(root != copy);
    let mut copy = root.clone();
    copy.children[1].chem.quantity = NumberToken::Constant(3);
    assert!(root != copy);
    let mut copy = root.clone();
    copy.children.pop();
    assert!(root != copy);
    let other = ChemTreeBranch::deconstruct(&nested(), &mut counter);
    assert!(root != other);
    let tree = ChemTree::deconstruct(&nested()).unwrap();
    let mut changed = tree.clone();
    assert!(tree == changed);
    changed.initial_state.reduce(0, 1).unwrap();
    assert!(tree == changed);
    changed.initial_state.clear(0);
    assert!(tree != changed);
    assert!(!tree.same_as(&changed));
}
