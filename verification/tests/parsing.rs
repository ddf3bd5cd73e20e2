use chem_planner::calculator::action::Action;
use chem_planner::calculator::planner::compute_actions;
use chem_planner::calculator::tree::ChemTree;
use chem_planner::chemicals::{NumberOperator, NumberToken};
use chem_planner::compiler::bytecode::to_bytecode;
use chem_planner::compiler::lowering::{compile, CompilerFlags};
use chem_planner::parser::grammar::{parse, Substitution};
use chem_planner::parser::lexical::{ParseError, ParseErrorKind, ParseReason};

fn table() -> Vec<Substitution> {
    vec![
        Substitution {
            name: "AMMONIA".to_string(),
            formula: "($/1:hydrogen;$/3:nitrogen;)".to_string(),
        },
        Substitution {
            name: "DIETHYLAMINE".to_string(),
            formula: "($/2:ethanol;$/2:*AMMONIA;)@374;".to_string(),
        },
        Substitution { name: "LOOP".to_string(), formula: "*LOOP;".to_string() },
    ]
}

#[test]
fn a_group_of_two_reagents_is_read() {
    let (token, times) = parse("50:($/3:nitrogen;$/1:hydrogen;)", &table()).unwrap();
    assert_eq!(times, 1);
    assert_eq!(token.quantity, NumberToken::Constant(50));
    assert_eq!(token.chemical.name, None);
    assert_eq!(token.chemical.temp, None);
    assert_eq!(token.chemical.chemicals.len(), 2);
    let first = &token.chemical.chemicals[0];
    assert_eq!(first.quantity, NumberToken::Calculated(NumberOperator::new(1, 3)));
    assert_eq!(first.chemical.name, Some("nitrogen".to_string()));
    let second = &token.chemical.chemicals[1];
    assert_eq!(second.quantity, NumberToken::Calculated(NumberOperator::new(1, 1)));
    assert_eq!(second.chemical.name, Some("hydrogen".to_string()));
}

#[test]
fn a_batch_count_comes_before_an_x() {
    let (token, times) = parse("3x25:water;", &table()).unwrap();
    assert_eq!(times, 3);
    assert_eq!(token.quantity, NumberToken::Constant(25));
    assert_eq!(token.chemical.name, Some("water".to_string()));
    assert_eq!(token.priority, 0);
    assert_eq!(token.concrete_quantity, None);
}

#[test]
fn temperature_and_priority_follow_a_group() {
    let (token, _) = parse("25:(10:a;!4;$2/3:b;)@374;!2;", &table()).unwrap();
    assert_eq!(token.chemical.temp, Some(374));
    assert_eq!(token.priority, 2);
    assert_eq!(token.chemical.chemicals[0].priority, 4);
    assert_eq!(
        token.chemical.chemicals[1].quantity,
        NumberToken::Calculated(NumberOperator::new(2, 3))
    );
}

#[test]
fn a_premade_recipe_is_found_whatever_the_case_of_its_name() {
    let (token, _) = parse("50:*diethylamine;!7;", &table()).unwrap();
    assert_eq!(token.quantity, NumberToken::Constant(50));
    assert_eq!(token.priority, 7);
    assert_eq!(token.chemical.temp, Some(374));
    assert_eq!(token.chemical.chemicals.len(), 2);
    let ammonia = &token.chemical.chemicals[1];
    assert_eq!(ammonia.quantity, NumberToken::Calculated(NumberOperator::new(1, 2)));
    assert_eq!(ammonia.chemical.chemicals.len(), 2);
    assert_eq!(ammonia.chemical.chemicals[1].chemical.name, Some("nitrogen".to_string()));
}

#[test]
fn an_unknown_premade_recipe_is_reported() {
    let e = parse("50:*water;", &table()).unwrap_err();
    assert_eq!(e, ParseError { position: 0, reason: ParseReason::UnknownSubstitution });
    assert_eq!(e.kind(), ParseErrorKind::UnknownSubstitution);
}

#[test]
fn premade_recipes_in_a_circle_are_reported() {
    let e = parse("50:*LOOP;", &table()).unwrap_err();
    assert_eq!(e.reason, ParseReason::SubstitutionTooDeep);
    assert_eq!(e.kind(), ParseErrorKind::MalformedRecipe);
}

#[test]
fn malformed_recipes_are_reported_with_their_place() {
    assert_eq!(
        parse("", &table()).unwrap_err(),
        ParseError { position: 0, reason: ParseReason::EndOfInput }
    );
    assert_eq!(
        parse("abc", &table()).unwrap_err(),
        ParseError { position: 3, reason: ParseReason::NotANumber { found: 'a' } }
    );
    assert_eq!(
        parse("50;water;", &table()).unwrap_err(),
        ParseError { position: 6, reason: ParseReason::Expected { wanted: ':', found: ';' } }
    );
    assert_eq!(
        parse("50:(10:a;", &table()).unwrap_err(),
        ParseError { position: 0, reason: ParseReason::EndOfInput }
    );
    assert_eq!(
        parse("50:water", &table()).unwrap_err(),
        ParseError { position: 0, reason: ParseReason::EndOfInput }
    );
    assert_eq!(
        parse("$1/x:water;", &table()).unwrap_err(),
        ParseError { position: 8, reason: ParseReason::BadDigit { found: 'x' } }
    );
    assert_eq!(
        parse("99999999999:water;", &table()).unwrap_err(),
        ParseError { position: 7, reason: ParseReason::NumberTooLarge }
    );
    assert_eq!(
        parse("$1/2x5:water;", &table()).unwrap_err(),
        ParseError { position: 8, reason: ParseReason::FractionNotAllowed }
    );
    assert_eq!(
        parse("5:(1:a;)@$1/2;", &table()).unwrap_err(),
        ParseError { position: 1, reason: ParseReason::FractionNotAllowed }
    );
}

#[test]
fn a_recipe_of_premade_recipes_is_planned_and_compiled() {
    let entries = [
        ("AMMONIA", "($/1:hydrogen;$/3:nitrogen;)"),
        ("DIETHYLAMINE", "($/2:ethanol;$/2:*AMMONIA;)@374;"),
        ("OIL", "($/2:weldingfuel;$/2:carbon;$/2:hydrogen;)"),
        ("EPHEDRINE", "($/3:sugar;$/3:hydrogen;$/3:*OIL;$/2:*DIETHYLAMINE;)"),
        ("METH", "($/3:phosphorus;$/3:hydrogen;$/3:iodine;$/3:*EPHEDRINE;)@374;"),
    ];
    let table: Vec<Substitution> = entries
        .iter()
        .map(|(n, f)| Substitution { name: n.to_string(), formula: f.to_string() })
        .collect();
    let (token, times) = parse("2x20:*meth;", &table).unwrap();
    assert_eq!(times, 2);
    let mut tree = ChemTree::deconstruct(&token).unwrap();
    assert_eq!(tree.initial_state.count_nonempty(), 8);
    tree.initial_state.multiply(times).unwrap();
    let (actions, sizes) = compute_actions(&tree, times).unwrap();
    let bottles = actions.iter().filter(|a| matches!(a, Action::CreateBottle { .. })).count();
    let heats = actions.iter().filter(|a| matches!(a, Action::Heat { temp: 374, .. })).count();
    assert_eq!(bottles, 2);
    assert_eq!(heats, 4);
    assert!(matches!(actions.last(), Some(Action::CreateBottle { amount: 100, .. })));
    assert_eq!(sizes.len(), 10);
    assert!(sizes.iter().all(|s| *s == 0 || *s == 50 || *s == 100));
    for action in &actions {
        let target = match action {
            Action::Transfer { target, source, .. } => {
                assert!(1 <= *source && *source <= 10);
                *target
            }
            Action::Heat { target, .. }
            | Action::Eject { target }
            | Action::DumpByproduct { target, .. }
            | Action::EjectDownTo { target, .. }
            | Action::CreateBottle { target, .. }
            | Action::CreatePill { target, .. } => *target,
        };
        assert!(1 <= target && target <= 10);
    }
    let code = to_bytecode(&compile(&actions, &CompilerFlags { sideproduct_pills: true }));
    assert!(code.ends_with('~'));
    assert_eq!(code.matches('~').count(), 1);
    let primitives = code.matches('@').count() + code.matches('$').count();
    assert_eq!(primitives, actions.len());
    let reads = actions.iter().filter(|a| matches!(a, Action::EjectDownTo { .. })).count();
    assert_eq!(code.matches(',').count(), reads);
}
