//! Lowering: the commands that fill the registers, the commands that perform each
//! action, and the text of a command list in the opcode alphabet.

use crate::calculator::action::Action;
use crate::compiler::registers::{
    extract_constants, heat_offset, lemma_log_literals_contains, lemma_register_of,
    lemma_register_table, literals, register_of, register_table, ALL, BASELINE,
    EJECT, MAKE_PILL, MAKE_VIAL, ZERO,
};
use crate::seqs::{lemma_first_index_is, lemma_first_index_none};
use vstd::prelude::*;

verus! {

/// One command of the register machine. The machine has a tape of cells with one
/// cursor, and three accumulators: source, target and amount.
#[derive(Clone, Copy, Debug, PartialEq, Eq, Hash, Structural)]
pub enum Command {
    /// Move the cursor right by so many cells.
    CursorRight(u32),
    /// Move the cursor left by so many cells.
    CursorLeft(u32),
    /// Add so much to the cell under the cursor.
    Add(u32),
    /// Subtract so much from the cell under the cursor.
    Subtract(u32),
    /// Read into the amount accumulator what the reservoir of the source accumulator
    /// holds at this moment.
    Get,
    /// Copy the cell under the cursor to the source accumulator.
    ToSx,
    /// Copy the source accumulator to the cell under the cursor.
    FromSx,
    /// Copy the cell under the cursor to the target accumulator.
    ToTx,
    /// Copy the target accumulator to the cell under the cursor.
    FromTx,
    /// Copy the cell under the cursor to the amount accumulator.
    ToAx,
    /// Copy the amount accumulator to the cell under the cursor.
    FromAx,
    /// Heat the reservoir of the source accumulator: up by the amount accumulator,
    /// down by the target accumulator.
    Heat,
    /// Move as much as the amount accumulator says from the reservoir of the source
    /// accumulator to that of the target accumulator.
    Transfer,
    /// Nothing.
    NoOp,
}

/// What the caller chooses about the code.
#[derive(Clone, Copy, Debug, PartialEq, Eq, Structural)]
pub struct CompilerFlags {
    /// Byproducts are made into pills; else they are ejected.
    pub sideproduct_pills: bool,
}

/// What the compiler knows while it emits commands: where the cursor stands, which
/// literal each register holds, and where the scratch cell is.
#[derive(Debug)]
pub struct ProgramState {
    pub pointer_position: u32,
    pub constants: Vec<u32>,
    pub scratch: u32,
}

/// The command that moves the cursor from `pos` to `register`, and where the cursor
/// stands after it.
pub open spec fn seek(pos: u32, register: u32) -> (Command, u32) {
    if register == pos {
        (Command::NoOp, pos)
    } else if register > pos {
        (Command::CursorRight((register - pos) as u32), register)
    } else {
        (Command::CursorLeft((pos - register) as u32), register)
    }
}

/// The command that moves the cursor from `pos` to the register of literal `c`.
pub open spec fn seek_constant(table: Seq<u32>, pos: u32, c: u32) -> (Command, u32) {
    match register_of(table, c) {
        Some(r) => seek(pos, r as u32),
        None => (Command::NoOp, pos),
    }
}

/// The commands that fill the first `n` registers with their literals, the cursor
/// starting at `pos`: for each register the move to it and the additions.
pub open spec fn filled(table: Seq<u32>, pos: u32, n: int) -> (Seq<Command>, u32)
    decreases n,
{
    if n <= 0 {
        (Seq::empty(), pos)
    } else {
        let (before, p) = filled(table, pos, n - 1);
        let (go, at) = seek(p, (n - 1) as u32);
        (before + seq![go, Command::Add(table[n - 1])], at)
    }
}

/// The commands that move `amount` from `source` to `sink`, each of them loaded
/// from its register.
pub open spec fn moving(table: Seq<u32>, pos: u32, source: u32, amount: u32, sink: u32) -> (
    Seq<Command>,
    u32,
) {
    let (c1, at1) = seek_constant(table, pos, source);
    let (c2, at2) = seek_constant(table, at1, amount);
    let (c3, at3) = seek_constant(table, at2, sink);
    (seq![c1, Command::ToSx, c2, Command::ToAx, c3, Command::ToTx, Command::Transfer], at3)
}

/// The commands that discard from `source` all but `keep` units: what the reservoir
/// holds is read, `keep` is subtracted from it in the scratch cell, and that much
/// is moved to `sink`.
pub open spec fn purging(table: Seq<u32>, pos: u32, source: u32, keep: u32, sink: u32) -> (
    Seq<Command>,
    u32,
) {
    let (c1, at1) = seek_constant(table, pos, source);
    let (c2, at2) = seek(at1, table.len() as u32);
    let (c3, at3) = seek_constant(table, at2, sink);
    (
        seq![
            c1,
            Command::ToSx,
            Command::Get,
            c2,
            Command::FromAx,
            Command::Subtract(keep),
            Command::ToAx,
            c3,
            Command::ToTx,
            Command::Transfer,
        ],
        at3,
    )
}

/// Where byproducts go.
pub open spec fn byproduct_sink(pills: bool) -> u32 {
    if pills {
        MAKE_PILL
    } else {
        EJECT
    }
}

/// The commands that perform action `a`, the cursor starting at `pos`, and where the
/// cursor stands after them.
pub open spec fn lowered(a: Action, table: Seq<u32>, pos: u32, pills: bool) -> (Seq<Command>, u32) {
    match a {
        Action::Transfer { amount, source, target } => {
            let (c1, at1) = seek_constant(table, pos, amount);
            let (c2, at2) = seek_constant(table, at1, source);
            let (c3, at3) = seek_constant(table, at2, target);
            (seq![c1, Command::ToAx, c2, Command::ToSx, c3, Command::ToTx, Command::Transfer], at3)
        },
        Action::Heat { temp, target } => {
            let (up, down) = if temp > BASELINE {
                (heat_offset(temp), ZERO)
            } else {
                (ZERO, heat_offset(temp))
            };
            let (c1, at1) = seek_constant(table, pos, up);
            let (c2, at2) = seek_constant(table, at1, down);
            let (c3, at3) = seek_constant(table, at2, target);
            (seq![c1, Command::ToAx, c2, Command::ToTx, c3, Command::ToSx, Command::Heat], at3)
        },
        Action::Eject { target } => moving(table, pos, target, ALL, EJECT),
        Action::DumpByproduct { target, remaining } => purging(
            table,
            pos,
            target,
            remaining,
            byproduct_sink(pills),
        ),
        Action::EjectDownTo { target, amount } => purging(
            table,
            pos,
            target,
            amount,
            byproduct_sink(pills),
        ),
        Action::CreateBottle { target, amount } => moving(table, pos, target, amount, MAKE_VIAL),
        Action::CreatePill { target, amount } => moving(table, pos, target, amount, MAKE_PILL),
    }
}

/// The commands that perform the first `n` actions, one after the other.
pub open spec fn lowered_all(actions: Seq<Action>, table: Seq<u32>, pos: u32, pills: bool, n: int) -> (
    Seq<Command>,
    u32,
)
    decreases n,
{
    if n <= 0 {
        (Seq::empty(), pos)
    } else {
        let (before, p) = lowered_all(actions, table, pos, pills, n - 1);
        let (more, at) = lowered(actions[n - 1], table, p, pills);
        (before + more, at)
    }
}

/// The commands of a log of actions: the registers of its literals are filled, then
/// the actions are performed in their order.
pub open spec fn compiled(actions: Seq<Action>, pills: bool) -> Seq<Command> {
    let table = register_table(actions);
    let (fill, pos) = filled(table, 0, table.len() as int);
    fill + lowered_all(actions, table, pos, pills, actions.len() as int).0
}

/// The table has a register for each of the forced constants.
pub open spec fn has_forced(table: Seq<u32>) -> bool {
    &&& table.contains(ZERO)
    &&& table.contains(MAKE_PILL)
    &&& table.contains(MAKE_VIAL)
    &&& table.contains(EJECT)
    &&& table.contains(ALL)
}

/// The table has a register for each literal of action `a`.
pub open spec fn covers(table: Seq<u32>, a: Action) -> bool {
    forall|k: int| 0 <= k < literals(a).len() ==> table.contains(#[trigger] literals(a)[k])
}

impl ProgramState {
    /// The scratch cell lies right behind the registers, and the cursor stands on a
    /// register or on the scratch cell.
    pub open spec fn wf(&self) -> bool {
        &&& self.scratch == self.constants@.len()
        &&& self.pointer_position <= self.scratch
    }

    pub fn move_cursor_right(&mut self, amount: u32) -> (r: Command)
        requires
            old(self).pointer_position + amount <= u32::MAX,
        ensures
            r == Command::CursorRight(amount),
            final(self).pointer_position == old(self).pointer_position + amount,
            final(self).constants == old(self).constants,
            final(self).scratch == old(self).scratch,
    {
        self.pointer_position += amount;
        Command::CursorRight(amount)
    }

    pub fn move_cursor_left(&mut self, amount: u32) -> (r: Command)
        requires
            amount <= old(self).pointer_position,
        ensures
            r == Command::CursorLeft(amount),
            final(self).pointer_position == old(self).pointer_position - amount,
            final(self).constants == old(self).constants,
            final(self).scratch == old(self).scratch,
    {
        self.pointer_position -= amount;
        Command::CursorLeft(amount)
    }

    /// Moves the cursor to `register`.
    pub fn goto_register(&mut self, register: u32) -> (r: Command)
        ensures
            (r, final(self).pointer_position) == seek(old(self).pointer_position, register),
            final(self).constants == old(self).constants,
            final(self).scratch == old(self).scratch,
    {
        if register == self.pointer_position {
            Command::NoOp
        } else if register > self.pointer_position {
            let amount = register - self.pointer_position;
            self.move_cursor_right(amount)
        } else {
            let amount = self.pointer_position - register;
            self.move_cursor_left(amount)
        }
    }

    /// Moves the cursor to the register of literal `constant`.
    pub fn goto_constant(&mut self, constant: u32) -> (r: Command)
        requires
            old(self).wf(),
            old(self).constants@.contains(constant),
        ensures
            (r, final(self).pointer_position) == seek_constant(
                old(self).constants@,
                old(self).pointer_position,
                constant,
            ),
            final(self).constants == old(self).constants,
            final(self).scratch == old(self).scratch,
            final(self).wf(),
    {
        let ghost table = self.constants@;
        let ghost p = crate::compiler::registers::equal_to(constant);
        proof {
            lemma_register_of(table, constant);
        }
        let mut register: usize = 0;
        while register < self.constants.len() && self.constants[register] != constant
            invariant
                register <= self.constants.len(),
                table == self.constants@,
                p == crate::compiler::registers::equal_to(constant),
                forall|j: int| 0 <= j < register ==> !p(#[trigger] table[j]),
            decreases self.constants.len() - register,
        {
            register += 1;
        }
        proof {
            if register < table.len() {
                assert(p(table[register as int]));
                lemma_first_index_is(table, p, register as int);
            } else {
                lemma_first_index_none(table, p);
            }
        }
        self.goto_register(register as u32)
    }
}

/// Emits the move to the register of `constant` and then `sink`.
fn load(commands: &mut Vec<Command>, state: &mut ProgramState, constant: u32, sink: Command)
    requires
        old(state).wf(),
        old(state).constants@.contains(constant),
    ensures
        final(commands)@ == old(commands)@ + seq![
            seek_constant(old(state).constants@, old(state).pointer_position, constant).0,
            sink,
        ],
        final(state).pointer_position == seek_constant(
            old(state).constants@,
            old(state).pointer_position,
            constant,
        ).1,
        final(state).constants == old(state).constants,
        final(state).scratch == old(state).scratch,
        final(state).wf(),
{
    let go = state.goto_constant(constant);
    commands.push(go);
    commands.push(sink);
    assert(commands@ =~= old(commands)@ + seq![go, sink]);
}

/// Emits the commands that discard from `source` all but `keep` units.
fn purge(
    commands: &mut Vec<Command>,
    state: &mut ProgramState,
    source: u32,
    keep: u32,
    flags: &CompilerFlags,
)
    requires
        old(state).wf(),
        old(state).constants@.contains(source),
        has_forced(old(state).constants@),
    ensures
        final(commands)@ == old(commands)@ + purging(
            old(state).constants@,
            old(state).pointer_position,
            source,
            keep,
            byproduct_sink(flags.sideproduct_pills),
        ).0,
        final(state).pointer_position == purging(
            old(state).constants@,
            old(state).pointer_position,
            source,
            keep,
            byproduct_sink(flags.sideproduct_pills),
        ).1,
        final(state).constants == old(state).constants,
        final(state).scratch == old(state).scratch,
        final(state).wf(),
{
    let ghost expected = purging(
        state.constants@,
        state.pointer_position,
        source,
        keep,
        byproduct_sink(flags.sideproduct_pills),
    ).0;
    load(commands, state, source, Command::ToSx);
    commands.push(Command::Get);
    let go = state.goto_register(state.scratch);
    commands.push(go);
    commands.push(Command::FromAx);
    commands.push(Command::Subtract(keep));
    commands.push(Command::ToAx);
    if flags.sideproduct_pills {
        load(commands, state, MAKE_PILL, Command::ToTx);
    } else {
        load(commands, state, EJECT, Command::ToTx);
    }
    commands.push(Command::Transfer);
    assert(commands@ =~= old(commands)@ + expected);
}

/// Emits the commands that move `amount` from `source` to `sink`.
fn move_out(
    commands: &mut Vec<Command>,
    state: &mut ProgramState,
    source: u32,
    amount: u32,
    sink: u32,
)
    requires
        old(state).wf(),
        old(state).constants@.contains(source),
        old(state).constants@.contains(amount),
        old(state).constants@.contains(sink),
    ensures
        final(commands)@ == old(commands)@ + moving(
            old(state).constants@,
            old(state).pointer_position,
            source,
            amount,
            sink,
        ).0,
        final(state).pointer_position == moving(
            old(state).constants@,
            old(state).pointer_position,
            source,
            amount,
            sink,
        ).1,
        final(state).constants == old(state).constants,
        final(state).scratch == old(state).scratch,
        final(state).wf(),
{
    let ghost expected = moving(state.constants@, state.pointer_position, source, amount, sink).0;
    load(commands, state, source, Command::ToSx);
    load(commands, state, amount, Command::ToAx);
    load(commands, state, sink, Command::ToTx);
    commands.push(Command::Transfer);
    assert(commands@ =~= old(commands)@ + expected);
}

/// Emits the commands that perform `action`.
pub fn create_commands_from_action(
    commands: &mut Vec<Command>,
    state: &mut ProgramState,
    action: &Action,
    flags: &CompilerFlags,
)
    requires
        old(state).wf(),
        covers(old(state).constants@, *action),
        has_forced(old(state).constants@),
    ensures
        final(commands)@ == old(commands)@ + lowered(
            *action,
            old(state).constants@,
            old(state).pointer_position,
            flags.sideproduct_pills,
        ).0,
        final(state).pointer_position == lowered(
            *action,
            old(state).constants@,
            old(state).pointer_position,
            flags.sideproduct_pills,
        ).1,
        final(state).constants == old(state).constants,
        final(state).scratch == old(state).scratch,
        final(state).wf(),
{
    let ghost expected = lowered(
        *action,
        state.constants@,
        state.pointer_position,
        flags.sideproduct_pills,
    ).0;
    let ghost lits = literals(*action);
    proof {
        assert(lits.len() >= 1);
        assert(state.constants@.contains(lits[0]));
        if lits.len() >= 2 {
            assert(state.constants@.contains(lits[1]));
        }
        if lits.len() >= 3 {
            assert(state.constants@.contains(lits[2]));
        }
    }
    match *action {
        Action::Transfer { amount, source, target } => {
            load(commands, state, amount, Command::ToAx);
            load(commands, state, source, Command::ToSx);
            load(commands, state, target, Command::ToTx);
            commands.push(Command::Transfer);
            assert(commands@ =~= old(commands)@ + expected);
        },
        Action::Heat { temp, target } => {
            if temp > BASELINE {
                load(commands, state, temp - BASELINE, Command::ToAx);
                load(commands, state, ZERO, Command::ToTx);
            } else {
                load(commands, state, ZERO, Command::ToAx);
                load(commands, state, BASELINE - temp, Command::ToTx);
            }
            load(commands, state, target, Command::ToSx);
            commands.push(Command::Heat);
            assert(commands@ =~= old(commands)@ + expected);
        },
        Action::Eject { target } => {
            move_out(commands, state, target, ALL, EJECT);
        },
        Action::DumpByproduct { target, remaining } => {
            purge(commands, state, target, remaining, flags);
        },
        Action::EjectDownTo { target, amount } => {
            purge(commands, state, target, amount, flags);
        },
        Action::CreateBottle { target, amount } => {
            move_out(commands, state, target, amount, MAKE_VIAL);
        },
        Action::CreatePill { target, amount } => {
            move_out(commands, state, target, amount, MAKE_PILL);
        },
    }
}

/// Emits the commands that fill every register with its literal.
pub fn create_constants(state: &mut ProgramState, commands: &mut Vec<Command>)
    requires
        old(state).wf(),
    ensures
        final(commands)@ == old(commands)@ + filled(
            old(state).constants@,
            old(state).pointer_position,
            old(state).constants@.len() as int,
        ).0,
        final(state).pointer_position == filled(
            old(state).constants@,
            old(state).pointer_position,
            old(state).constants@.len() as int,
        ).1,
        final(state).constants == old(state).constants,
        final(state).scratch == old(state).scratch,
        final(state).wf(),
{
    let ghost table = state.constants@;
    let ghost start = state.pointer_position;
    let mut register: u32 = 0;
    assert(commands@ =~= old(commands)@ + filled(table, start, 0).0);
    while register < state.scratch
        invariant
            register <= state.scratch,
            state.scratch == table.len(),
            state.constants@ == table,
            state.constants == old(state).constants,
            state.scratch == old(state).scratch,
            state.pointer_position <= state.scratch,
            commands@ == old(commands)@ + filled(table, start, register as int).0,
            state.pointer_position == filled(table, start, register as int).1,
        decreases state.scratch - register,
    {
        let go = state.goto_register(register);
        commands.push(go);
        commands.push(Command::Add(state.constants[register as usize]));
        register += 1;
        assert(commands@ =~= old(commands)@ + filled(table, start, register as int).0);
    }
}

/// The commands of a log of actions: the registers of its literals are filled, then
/// the actions are performed in their order.
pub fn compile(actions: &Vec<Action>, flags: &CompilerFlags) -> (commands: Vec<Command>)
    requires
        3 * actions@.len() + 5 <= u32::MAX,
    ensures
        commands@ == compiled(actions@, flags.sideproduct_pills),
{
    let (constants, scratch) = extract_constants(actions);
    let ghost table = constants@;
    let mut state = ProgramState { constants, pointer_position: 0, scratch };
    let mut commands: Vec<Command> = Vec::new();
    create_constants(&mut state, &mut commands);
    let ghost fill = commands@;
    let ghost pos = state.pointer_position;
    proof {
        lemma_register_table(actions@);
        assert(fill =~= filled(table, 0, table.len() as int).0);
    }
    let mut i: usize = 0;
    assert(commands@ =~= fill + lowered_all(actions@, table, pos, flags.sideproduct_pills, 0).0);
    while i < actions.len()
        invariant
            i <= actions.len(),
            table == register_table(actions@),
            state.constants@ == table,
            state.wf(),
            has_forced(table),
            commands@ == fill + lowered_all(
                actions@,
                table,
                pos,
                flags.sideproduct_pills,
                i as int,
            ).0,
            state.pointer_position == lowered_all(
                actions@,
                table,
                pos,
                flags.sideproduct_pills,
                i as int,
            ).1,
        decreases actions.len() - i,
    {
        proof {
            lemma_register_table(actions@);
            assert forall|k: int| 0 <= k < literals(actions@[i as int]).len() implies table.contains(
                #[trigger] literals(actions@[i as int])[k],
            ) by {
                lemma_log_literals_contains(actions@, i as int, k);
            }
        }
        create_commands_from_action(&mut commands, &mut state, &actions[i], flags);
        i += 1;
        assert(commands@ =~= fill + lowered_all(
            actions@,
            table,
            pos,
            flags.sideproduct_pills,
            i as int,
        ).0);
    }
    commands
}

} // verus!
