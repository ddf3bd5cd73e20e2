use chem_planner::calculator::action::Action;
use chem_planner::calculator::planner::compute_actions;
use chem_planner::calculator::tree::ChemTree;
use chem_planner::chemicals::{ChemToken, Chemical, NumberOperator, NumberToken};
use chem_planner::compiler::bytecode::to_bytecode;
use chem_planner::compiler::lowering::{
    compile, create_commands_from_action, create_constants, Command, CompilerFlags, ProgramState,
};
use chem_planner::compiler::registers::{
    add_constant, extract_constants, ALL, BASELINE, EJECT, MAKE_PILL, MAKE_VIAL, ZERO,
};

const EJECTING: CompilerFlags = CompilerFlags { sideproduct_pills: false };
const PILLS: CompilerFlags = CompilerFlags { sideproduct_pills: true };

#[derive(Debug, PartialEq)]
enum Call {
    Transfer { source: i64, target: i64, amount: i64 },
    Heat { target: i64, up: i64, down: i64 },
}

/// Reads the text back against the opcode table and runs it on a machine of the
/// test's own. `live` gives what each read of a live quantity finds.
fn replay(code: &str, live: &[i64]) -> (Vec<Call>, Vec<i64>) {
    assert!(code.ends_with('~'));
    let mut tape = vec![0i64; 64];
    let (mut cursor, mut sx, mut tx, mut ax, mut reads) = (0usize, 0i64, 0i64, 0i64, 0usize);
    let mut calls = vec![];
    for c in code[..code.len() - 1].chars() {
        match c {
            '>' => cursor += 1,
            '<' => cursor -= 1,
            '+' => tape[cursor] += 1,
            '-' => tape[cursor] -= 1,
            ',' => {
                ax = live[reads];
                reads += 1;
            }
            '}' => sx = tape[cursor],
            '{' => tape[cursor] = sx,
            ')' => tx = tape[cursor],
            '(' => tape[cursor] = tx,
            '\'' => ax = tape[cursor],
            '^' => tape[cursor] = ax,
            '$' => calls.push(Call::Heat { target: sx, up: ax, down: tx }),
            '@' => calls.push(Call::Transfer { source: sx, target: tx, amount: ax }),
            other => panic!("{} is no opcode", other),
        }
    }
    assert_eq!(reads, live.len());
    (calls, tape)
}

fn state_of(actions: &Vec<Action>) -> ProgramState {
    let (constants, scratch) = extract_constants(actions);
    ProgramState { pointer_position: 0, constants, scratch }
}

#[test]
fn the_reserved_constants_have_their_values() {
    assert_eq!((ZERO, MAKE_PILL, MAKE_VIAL, EJECT, ALL, BASELINE), (0, 11, 12, 13, 100, 273));
}

#[test]
fn literals_get_registers_in_the_order_of_their_first_appearance() {
    let actions = vec![
        Action::Transfer { amount: 17, source: 2, target: 1 },
        Action::Heat { temp: 374, target: 1 },
        Action::Heat { temp: 200, target: 2 },
        Action::Eject { target: 17 },
        Action::EjectDownTo { target: 1, amount: 50 },
        Action::Transfer { amount: 100, source: 1, target: 3 },
        Action::CreateBottle { target: 3, amount: 100 },
        Action::CreatePill { target: 4, amount: 12 },
        Action::DumpByproduct { target: 5, remaining: 0 },
    ];
    let (table, scratch) = extract_constants(&actions);
    assert_eq!(table, vec![17, 2, 1, 101, 73, 50, 100, 3, 4, 12, 5, 0, 11, 13]);
    assert_eq!(scratch, 14);
}

#[test]
fn the_reserved_constants_always_get_registers() {
    assert_eq!(extract_constants(&vec![]), (vec![0, 11, 12, 13, 100], 5));
    let (table, scratch) = extract_constants(&vec![Action::Eject { target: 13 }]);
    assert_eq!(table, vec![13, 0, 11, 12, 100]);
    assert_eq!(scratch, 5);
}

#[test]
fn a_known_literal_gets_no_second_register() {
    let mut table = vec![];
    let mut counter = 0;
    add_constant(&mut table, 7, &mut counter);
    add_constant(&mut table, 9, &mut counter);
    add_constant(&mut table, 7, &mut counter);
    assert_eq!(table, vec![7, 9]);
    assert_eq!(counter, 2);
}

#[test]
fn the_cursor_moves_by_the_distance() {
    let mut state = ProgramState { pointer_position: 3, constants: vec![5, 6, 7, 8, 9], scratch: 5 };
    assert_eq!(state.goto_register(3), Command::NoOp);
    assert_eq!(state.goto_register(5), Command::CursorRight(2));
    assert_eq!(state.pointer_position, 5);
    assert_eq!(state.goto_register(1), Command::CursorLeft(4));
    assert_eq!(state.pointer_position, 1);
    assert_eq!(state.goto_constant(9), Command::CursorRight(3));
    assert_eq!(state.goto_constant(9), Command::NoOp);
    assert_eq!(state.goto_constant(5), Command::CursorLeft(4));
    assert_eq!(state.move_cursor_right(2), Command::CursorRight(2));
    assert_eq!(state.move_cursor_left(1), Command::CursorLeft(1));
    assert_eq!(state.pointer_position, 1);
    assert_eq!(state.constants, vec![5, 6, 7, 8, 9]);
    assert_eq!(state.scratch, 5);
}

#[test]
fn the_registers_are_filled_in_their_order() {
    let mut state = ProgramState { pointer_position: 0, constants: vec![2, 0, 3], scratch: 3 };
    let mut commands = vec![Command::Get];
    create_constants(&mut state, &mut commands);
    assert_eq!(
        commands,
        vec![
            Command::Get,
            Command::NoOp,
            Command::Add(2),
            Command::CursorRight(1),
            Command::Add(0),
            Command::CursorRight(1),
            Command::Add(3),
        ]
    );
    assert_eq!(state.pointer_position, 2);
    let mut commands = vec![];
    create_constants(&mut state, &mut commands);
    assert_eq!(commands[0], Command::CursorLeft(2));
}

#[test]
fn a_transfer_loads_amount_source_and_target() {
    let action = Action::Transfer { amount: 17, source: 2, target: 1 };
    let mut state = state_of(&vec![action]);
    state.pointer_position = 7;
    let mut commands = vec![];
    create_commands_from_action(&mut commands, &mut state, &action, &EJECTING);
    assert_eq!(
        commands,
        vec![
            Command::CursorLeft(7),
            Command::ToAx,
            Command::CursorRight(1),
            Command::ToSx,
            Command::CursorRight(1),
            Command::ToTx,
            Command::Transfer,
        ]
    );
    assert_eq!(state.pointer_position, 2);
}

#[test]
fn heating_loads_the_distance_from_the_baseline() {
    let actions = vec![Action::Heat { temp: 374, target: 1 }, Action::Heat { temp: 173, target: 1 }];
    let mut state = state_of(&actions);
    assert_eq!(state.constants, vec![101, 1, 100, 0, 11, 12, 13]);
    let mut commands = vec![];
    create_commands_from_action(&mut commands, &mut state, &actions[0], &EJECTING);
    assert_eq!(
        commands,
        vec![
            Command::NoOp,
            Command::ToAx,
            Command::CursorRight(3),
            Command::ToTx,
            Command::CursorLeft(2),
            Command::ToSx,
            Command::Heat,
        ]
    );
    let mut commands = vec![];
    create_commands_from_action(&mut commands, &mut state, &actions[1], &EJECTING);
    assert_eq!(
        commands,
        vec![
            Command::CursorRight(2),
            Command::ToAx,
            Command::CursorLeft(1),
            Command::ToTx,
            Command::CursorLeft(1),
            Command::ToSx,
            Command::Heat,
        ]
    );
    let at_baseline = Action::Heat { temp: 273, target: 1 };
    let mut state = state_of(&vec![at_baseline]);
    let mut commands = vec![];
    create_commands_from_action(&mut commands, &mut state, &at_baseline, &EJECTING);
    assert_eq!(commands[0], Command::NoOp);
    assert_eq!(commands[2], Command::NoOp);
}

#[test]
fn ejecting_and_bottling_are_transfers_to_pseudo_targets() {
    let actions = vec![
        Action::Eject { target: 2 },
        Action::CreateBottle { target: 2, amount: 100 },
        Action::CreatePill { target: 2, amount: 7 },
    ];
    let mut state = state_of(&actions);
    assert_eq!(state.constants, vec![2, 100, 7, 0, 11, 12, 13]);
    let mut commands = vec![];
    create_commands_from_action(&mut commands, &mut state, &actions[0], &EJECTING);
    assert_eq!(
        commands,
        vec![
            Command::NoOp,
            Command::ToSx,
            Command::CursorRight(1),
            Command::ToAx,
            Command::CursorRight(5),
            Command::ToTx,
            Command::Transfer,
        ]
    );
    assert_eq!(state.constants[state.pointer_position as usize], EJECT);
    let mut with_pills = state_of(&actions);
    let mut same = vec![];
    create_commands_from_action(&mut same, &mut with_pills, &actions[0], &PILLS);
    assert_eq!(same, commands);
    let mut commands = vec![];
    create_commands_from_action(&mut commands, &mut state, &actions[1], &EJECTING);
    assert_eq!(
        commands,
        vec![
            Command::CursorLeft(6),
            Command::ToSx,
            Command::CursorRight(1),
            Command::ToAx,
            Command::CursorRight(4),
            Command::ToTx,
            Command::Transfer,
        ]
    );
    let mut commands = vec![];
    create_commands_from_action(&mut commands, &mut state, &actions[2], &EJECTING);
    assert_eq!(
        commands,
        vec![
            Command::CursorLeft(5),
            Command::ToSx,
            Command::CursorRight(2),
            Command::ToAx,
            Command::CursorRight(2),
            Command::ToTx,
            Command::Transfer,
        ]
    );
}

#[test]
fn purging_reads_what_the_reservoir_holds() {
    let actions = vec![
        Action::EjectDownTo { target: 1, amount: 50 },
        Action::DumpByproduct { target: 1, remaining: 3 },
    ];
    let mut state = state_of(&actions);
    assert_eq!(state.constants, vec![1, 50, 3, 0, 11, 12, 13, 100]);
    let mut commands = vec![];
    create_commands_from_action(&mut commands, &mut state, &actions[0], &EJECTING);
    assert_eq!(
        commands,
        vec![
            Command::NoOp,
            Command::ToSx,
            Command::Get,
            Command::CursorRight(8),
            Command::FromAx,
            Command::Subtract(50),
            Command::ToAx,
            Command::CursorLeft(2),
            Command::ToTx,
            Command::Transfer,
        ]
    );
    let mut commands = vec![];
    create_commands_from_action(&mut commands, &mut state, &actions[1], &PILLS);
    assert_eq!(
        commands,
        vec![
            Command::CursorLeft(6),
            Command::ToSx,
            Command::Get,
            Command::CursorRight(8),
            Command::FromAx,
            Command::Subtract(3),
            Command::ToAx,
            Command::CursorLeft(4),
            Command::ToTx,
            Command::Transfer,
        ]
    );
}

#[test]
fn a_program_fills_its_registers_and_then_acts() {
    let actions = vec![Action::Transfer { amount: 2, source: 1, target: 3 }];
    let commands = compile(&actions, &EJECTING);
    assert_eq!(
        commands,
        vec![
            Command::NoOp,
            Command::Add(2),
            Command::CursorRight(1),
            Command::Add(1),
            Command::CursorRight(1),
            Command::Add(3),
            Command::CursorRight(1),
            Command::Add(0),
            Command::CursorRight(1),
            Command::Add(11),
            Command::CursorRight(1),
            Command::Add(12),
            Command::CursorRight(1),
            Command::Add(13),
            Command::CursorRight(1),
            Command::Add(100),
            Command::CursorLeft(7),
            Command::ToAx,
            Command::CursorRight(1),
            Command::ToSx,
            Command::CursorRight(1),
            Command::ToTx,
            Command::Transfer,
        ]
    );
    let code = to_bytecode(&commands);
    let expected = format!(
        "++>+>+++>>{}>{}>{}>{}<<<<<<<'>}}>)@~",
        "+".repeat(11),
        "+".repeat(12),
        "+".repeat(13),
        "+".repeat(100)
    );
    assert_eq!(code, expected);
}

#[test]
fn every_command_has_its_character() {
    let commands = vec![
        Command::CursorRight(2),
        Command::CursorLeft(1),
        Command::Add(3),
        Command::Subtract(2),
        Command::Get,
        Command::ToSx,
        Command::FromSx,
        Command::ToTx,
        Command::FromTx,
        Command::ToAx,
        Command::FromAx,
        Command::Heat,
        Command::Transfer,
        Command::NoOp,
        Command::Add(0),
    ];
    assert_eq!(to_bytecode(&commands), ">><+++--,}{)('^$@~");
    assert_eq!(to_bytecode(&vec![]), "~");
}

#[test]
fn the_code_of_a_log_replays_as_the_calls_of_the_log() {
    let actions = vec![
        Action::EjectDownTo { target: 1, amount: 50 },
        Action::Transfer { amount: 17, source: 2, target: 1 },
        Action::Eject { target: 2 },
        Action::Heat { temp: 374, target: 1 },
        Action::Heat { temp: 200, target: 1 },
        Action::DumpByproduct { target: 3, remaining: 4 },
        Action::CreatePill { target: 1, amount: 5 },
        Action::CreateBottle { target: 1, amount: 100 },
    ];
    let code = to_bytecode(&compile(&actions, &EJECTING));
    let (calls, tape) = replay(&code, &[60, 9]);
    assert_eq!(
        calls,
        vec![
            Call::Transfer { source: 1, target: 13, amount: 10 },
            Call::Transfer { source: 2, target: 1, amount: 17 },
            Call::Transfer { source: 2, target: 13, amount: 100 },
            Call::Heat { target: 1, up: 101, down: 0 },
            Call::Heat { target: 1, up: 0, down: 73 },
            Call::Transfer { source: 3, target: 13, amount: 5 },
            Call::Transfer { source: 1, target: 11, amount: 5 },
            Call::Transfer { source: 1, target: 12, amount: 100 },
        ]
    );
    let (table, scratch) = extract_constants(&actions);
    for (register, literal) in table.iter().enumerate() {
        assert_eq!(tape[register], *literal as i64);
    }
    assert_eq!(tape[scratch as usize], 5);
    let with_pills = to_bytecode(&compile(&actions, &PILLS));
    let (calls, _) = replay(&with_pills, &[60, 9]);
    assert_eq!(calls[0], Call::Transfer { source: 1, target: 11, amount: 10 });
    assert_eq!(calls[5], Call::Transfer { source: 3, target: 11, amount: 5 });
    assert_eq!(calls[2], Call::Transfer { source: 2, target: 13, amount: 100 });
}

#[test]
fn the_plan_of_a_recipe_replays_as_planned() {
    let part = |name: &str, n: u32, d: u32| ChemToken {
        quantity: NumberToken::Calculated(NumberOperator::new(n, d)),
        chemical: Chemical { name: Some(name.to_string()), chemicals: vec![], temp: None },
        priority: 0,
        concrete_quantity: None,
    };
    let recipe = ChemToken {
        quantity: NumberToken::Constant(50),
        chemical: Chemical {
            name: None,
            chemicals: vec![part("a", 1, 1), part("b", 1, 3)],
            temp: None,
        },
        priority: 0,
        concrete_quantity: None,
    };
    let tree = ChemTree::deconstruct(&recipe).unwrap();
    let (actions, _) = compute_actions(&tree, 1).unwrap();
    assert_eq!(actions.iter().filter(|a| matches!(a, Action::Heat { .. })).count(), 0);
    assert_eq!(actions.iter().filter(|a| matches!(a, Action::CreateBottle { .. })).count(), 1);
    let code = to_bytecode(&compile(&actions, &EJECTING));
    let (calls, _) = replay(&code, &[50]);
    assert_eq!(
        calls,
        vec![
            Call::Transfer { source: 1, target: 13, amount: 0 },
            Call::Transfer { source: 2, target: 1, amount: 17 },
            Call::Transfer { source: 2, target: 13, amount: 100 },
            Call::Transfer { source: 1, target: 12, amount: 100 },
        ]
    );
}
