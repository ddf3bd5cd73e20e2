//! A model of the register machine, and the proof that the code of an action log,
//! read back from its text and run on the model, makes the primitive calls that
//! the log stands for.

use crate::calculator::action::Action;
use crate::compiler::bytecode::{bytecode, encoded, encoded_all, end_marker};
use crate::compiler::lowering::{
    byproduct_sink, compiled, covers, filled, has_forced, lowered, lowered_all, moving, purging,
    seek, seek_constant, Command,
};
use crate::compiler::registers::{
    lemma_log_literals_contains, lemma_log_literals_len, lemma_register_of, lemma_register_table,
    literals, register_of, register_table, ALL, BASELINE, EJECT, MAKE_PILL, MAKE_VIAL, ZERO,
};
use vstd::prelude::*;

verus! {

/// One operation of the machine: what one character of a program stands for.
pub enum Op {
    Right,
    Left,
    Increment,
    Decrement,
    Get,
    ToSx,
    FromSx,
    ToTx,
    FromTx,
    ToAx,
    FromAx,
    Heat,
    Transfer,
}

/// The character that stands for an operation.
pub open spec fn symbol(op: Op) -> char {
    match op {
        Op::Right => '>',
        Op::Left => '<',
        Op::Increment => '+',
        Op::Decrement => '-',
        Op::Get => ',',
        Op::ToSx => '}',
        Op::FromSx => '{',
        Op::ToTx => ')',
        Op::FromTx => '(',
        Op::ToAx => '\'',
        Op::FromAx => '^',
        Op::Heat => '$',
        Op::Transfer => '@',
    }
}

/// The operation that a character stands for.
pub open spec fn operation(c: char) -> Option<Op> {
    if c == '>' {
        Some(Op::Right)
    } else if c == '<' {
        Some(Op::Left)
    } else if c == '+' {
        Some(Op::Increment)
    } else if c == '-' {
        Some(Op::Decrement)
    } else if c == ',' {
        Some(Op::Get)
    } else if c == '}' {
        Some(Op::ToSx)
    } else if c == '{' {
        Some(Op::FromSx)
    } else if c == ')' {
        Some(Op::ToTx)
    } else if c == '(' {
        Some(Op::FromTx)
    } else if c == '\'' {
        Some(Op::ToAx)
    } else if c == '^' {
        Some(Op::FromAx)
    } else if c == '$' {
        Some(Op::Heat)
    } else if c == '@' {
        Some(Op::Transfer)
    } else {
        None
    }
}

/// The operations that a text without end marker stands for, where every character
/// stands for one.
pub open spec fn operations(text: Seq<char>) -> Option<Seq<Op>> {
    if forall|i: int| 0 <= i < text.len() ==> operation(#[trigger] text[i]) is Some {
        Some(Seq::new(text.len(), |i: int| operation(text[i])->Some_0))
    } else {
        None
    }
}

/// The operations of a program: its text has to end with the end marker, and every
/// character before that has to stand for an operation.
pub open spec fn decoded(code: Seq<char>) -> Option<Seq<Op>> {
    if code.len() == 0 || code.last() != end_marker() {
        None
    } else {
        operations(code.drop_last())
    }
}

/// A primitive call of the machine, with the values of the accumulators at the call.
pub enum Call {
    /// Move `amount` units from reservoir `source` to `target`.
    Transfer { source: int, target: int, amount: int },
    /// Heat reservoir `target` by `up` degrees, or cool it by `down`.
    Heat { target: int, up: int, down: int },
}

/// The state of the machine.
pub struct Machine {
    /// Where the cursor stands.
    pub cursor: int,
    /// The cells of the tape.
    pub tape: Map<int, int>,
    /// The source accumulator.
    pub source: int,
    /// The target accumulator.
    pub target: int,
    /// The amount accumulator.
    pub amount: int,
    /// How many live quantities were read.
    pub reads: nat,
    /// The primitive calls made, in their order.
    pub calls: Seq<Call>,
}

/// The machine before a program: every cell and accumulator is zero.
pub open spec fn fresh() -> Machine {
    Machine {
        cursor: 0,
        tape: Map::total(|i: int| 0int),
        source: 0,
        target: 0,
        amount: 0,
        reads: 0,
        calls: Seq::empty(),
    }
}

impl Machine {
    /// The cell under the cursor.
    pub open spec fn cell(self) -> int {
        self.tape[self.cursor]
    }

    /// The machine with `v` in the cell under the cursor.
    pub open spec fn with_cell(self, v: int) -> Machine {
        Machine { tape: self.tape.insert(self.cursor, v), ..self }
    }

    /// The machine after one operation. `live` gives the quantity that the n-th read
    /// of a live quantity finds.
    pub open spec fn stepped(self, op: Op, live: spec_fn(nat) -> int) -> Machine {
        match op {
            Op::Right => Machine { cursor: self.cursor + 1, ..self },
            Op::Left => Machine { cursor: self.cursor - 1, ..self },
            Op::Increment => self.with_cell(self.cell() + 1),
            Op::Decrement => self.with_cell(self.cell() - 1),
            Op::Get => Machine { amount: live(self.reads), reads: self.reads + 1, ..self },
            Op::ToSx => Machine { source: self.cell(), ..self },
            Op::FromSx => self.with_cell(self.source),
            Op::ToTx => Machine { target: self.cell(), ..self },
            Op::FromTx => self.with_cell(self.target),
            Op::ToAx => Machine { amount: self.cell(), ..self },
            Op::FromAx => self.with_cell(self.amount),
            Op::Heat => Machine {
                calls: self.calls.push(
                    Call::Heat { target: self.source, up: self.amount, down: self.target },
                ),
                ..self
            },
            Op::Transfer => Machine {
                calls: self.calls.push(
                    Call::Transfer {
                        source: self.source,
                        target: self.target,
                        amount: self.amount,
                    },
                ),
                ..self
            },
        }
    }

    /// The machine after the operations `ops`, one after the other.
    pub open spec fn replayed(self, ops: Seq<Op>, live: spec_fn(nat) -> int) -> Machine
        decreases ops.len(),
    {
        if ops.len() == 0 {
            self
        } else {
            self.replayed(ops.drop_last(), live).stepped(ops.last(), live)
        }
    }

    /// The machine after one command.
    pub open spec fn performed(self, cmd: Command, live: spec_fn(nat) -> int) -> Machine {
        match cmd {
            Command::CursorRight(n) => Machine { cursor: self.cursor + n, ..self },
            Command::CursorLeft(n) => Machine { cursor: self.cursor - n, ..self },
            Command::Add(n) => if n == 0 {
                self
            } else {
                self.with_cell(self.cell() + n)
            },
            Command::Subtract(n) => if n == 0 {
                self
            } else {
                self.with_cell(self.cell() - n)
            },
            Command::Get => self.stepped(Op::Get, live),
            Command::ToSx => self.stepped(Op::ToSx, live),
            Command::FromSx => self.stepped(Op::FromSx, live),
            Command::ToTx => self.stepped(Op::ToTx, live),
            Command::FromTx => self.stepped(Op::FromTx, live),
            Command::ToAx => self.stepped(Op::ToAx, live),
            Command::FromAx => self.stepped(Op::FromAx, live),
            Command::Heat => self.stepped(Op::Heat, live),
            Command::Transfer => self.stepped(Op::Transfer, live),
            Command::NoOp => self,
        }
    }

    /// The machine after the commands `cmds`, one after the other.
    pub open spec fn performed_all(self, cmds: Seq<Command>, live: spec_fn(nat) -> int) -> Machine
        decreases cmds.len(),
    {
        if cmds.len() == 0 {
            self
        } else {
            self.performed_all(cmds.drop_last(), live).performed(cmds.last(), live)
        }
    }
}

/// The operations that a command stands for.
pub open spec fn expanded(cmd: Command) -> Seq<Op> {
    match cmd {
        Command::CursorRight(n) => Seq::new(n as nat, |i: int| Op::Right),
        Command::CursorLeft(n) => Seq::new(n as nat, |i: int| Op::Left),
        Command::Add(n) => Seq::new(n as nat, |i: int| Op::Increment),
        Command::Subtract(n) => Seq::new(n as nat, |i: int| Op::Decrement),
        Command::Get => seq![Op::Get],
        Command::ToSx => seq![Op::ToSx],
        Command::FromSx => seq![Op::FromSx],
        Command::ToTx => seq![Op::ToTx],
        Command::FromTx => seq![Op::FromTx],
        Command::ToAx => seq![Op::ToAx],
        Command::FromAx => seq![Op::FromAx],
        Command::Heat => seq![Op::Heat],
        Command::Transfer => seq![Op::Transfer],
        Command::NoOp => Seq::empty(),
    }
}

/// The operations that a list of commands stands for.
pub open spec fn expanded_all(cmds: Seq<Command>) -> Seq<Op>
    decreases cmds.len(),
{
    if cmds.len() == 0 {
        Seq::empty()
    } else {
        expanded_all(cmds.drop_last()) + expanded(cmds.last())
    }
}

/// The symbols of a sequence of operations.
pub open spec fn symbols(ops: Seq<Op>) -> Seq<char> {
    Seq::new(ops.len(), |i: int| symbol(ops[i]))
}

/// Every operation is read back from its symbol, and no symbol is the end marker.
pub proof fn lemma_symbol_reads_back(op: Op)
    ensures
        operation(symbol(op)) == Some(op),
        symbol(op) != end_marker(),
{
}

/// The text of a command is the symbols of its operations.
pub proof fn lemma_encoded_is_symbols(cmd: Command)
    ensures
        encoded(cmd) == symbols(expanded(cmd)),
{
    assert(encoded(cmd) =~= symbols(expanded(cmd)));
}

/// The text of a list of commands is the symbols of its operations.
pub proof fn lemma_encoded_all_is_symbols(cmds: Seq<Command>)
    ensures
        encoded_all(cmds) == symbols(expanded_all(cmds)),
    decreases cmds.len(),
{
    if cmds.len() > 0 {
        lemma_encoded_all_is_symbols(cmds.drop_last());
        lemma_encoded_is_symbols(cmds.last());
        assert(symbols(expanded_all(cmds.drop_last()) + expanded(cmds.last())) =~= symbols(
            expanded_all(cmds.drop_last()),
        ) + symbols(expanded(cmds.last())));
    } else {
        assert(encoded_all(cmds) =~= symbols(expanded_all(cmds)));
    }
}

/// The text of a program reads back as the operations of its commands.
pub proof fn lemma_decoded_bytecode(cmds: Seq<Command>)
    ensures
        decoded(bytecode(cmds)) == Some(expanded_all(cmds)),
{
    let ops = expanded_all(cmds);
    let text = encoded_all(cmds);
    lemma_encoded_all_is_symbols(cmds);
    assert(bytecode(cmds).drop_last() =~= text);
    assert forall|i: int| 0 <= i < text.len() implies operation(#[trigger] text[i]) is Some by {
        lemma_symbol_reads_back(ops[i]);
    }
    assert forall|i: int| 0 <= i < text.len() implies operation(text[i])->Some_0 == ops[i] by {
        lemma_symbol_reads_back(ops[i]);
    }
    assert(operations(text)->Some_0 =~= ops);
}

/// Replaying one sequence of operations after another is replaying both.
pub proof fn lemma_replayed_concat(m: Machine, a: Seq<Op>, b: Seq<Op>, live: spec_fn(nat) -> int)
    ensures
        m.replayed(a + b, live) == m.replayed(a, live).replayed(b, live),
    decreases b.len(),
{
    if b.len() == 0 {
        assert(a + b =~= a);
    } else {
        assert((a + b).drop_last() =~= a + b.drop_last());
        lemma_replayed_concat(m, a, b.drop_last(), live);
    }
}

/// Performing one list of commands after another is performing both.
pub proof fn lemma_performed_concat(
    m: Machine,
    a: Seq<Command>,
    b: Seq<Command>,
    live: spec_fn(nat) -> int,
)
    ensures
        m.performed_all(a + b, live) == m.performed_all(a, live).performed_all(b, live),
    decreases b.len(),
{
    if b.len() == 0 {
        assert(a + b =~= a);
    } else {
        assert((a + b).drop_last() =~= a + b.drop_last());
        lemma_performed_concat(m, a, b.drop_last(), live);
    }
}

/// Replaying `n` steps to the right, to the left, up or down.
pub proof fn lemma_replayed_repeat(m: Machine, op: Op, n: nat, live: spec_fn(nat) -> int)
    requires
        op is Right || op is Left || op is Increment || op is Decrement,
    ensures
        m.replayed(Seq::new(n, |i: int| op), live) == match op {
            Op::Right => Machine { cursor: m.cursor + n, ..m },
            Op::Left => Machine { cursor: m.cursor - n, ..m },
            Op::Increment => if n == 0 {
                m
            } else {
                m.with_cell(m.cell() + n)
            },
            _ => if n == 0 {
                m
            } else {
                m.with_cell(m.cell() - n)
            },
        },
    decreases n,
{
    let ops = Seq::new(n, |i: int| op);
    if n > 0 {
        let less = Seq::new((n - 1) as nat, |i: int| op);
        assert(ops.drop_last() =~= less);
        lemma_replayed_repeat(m, op, (n - 1) as nat, live);
        let before = m.replayed(less, live);
        let after = before.stepped(op, live);
        match op {
            Op::Increment => {
                assert(after.tape =~= m.with_cell(m.cell() + n).tape);
            },
            Op::Decrement => {
                assert(after.tape =~= m.with_cell(m.cell() - n).tape);
            },
            _ => {},
        }
    }
}

/// Replaying the operations of a command is performing the command.
pub proof fn lemma_replayed_expanded(m: Machine, cmd: Command, live: spec_fn(nat) -> int)
    ensures
        m.replayed(expanded(cmd), live) == m.performed(cmd, live),
{
    match cmd {
        Command::CursorRight(n) => lemma_replayed_repeat(m, Op::Right, n as nat, live),
        Command::CursorLeft(n) => lemma_replayed_repeat(m, Op::Left, n as nat, live),
        Command::Add(n) => lemma_replayed_repeat(m, Op::Increment, n as nat, live),
        Command::Subtract(n) => lemma_replayed_repeat(m, Op::Decrement, n as nat, live),
        Command::NoOp => {},
        _ => {
            let ops = expanded(cmd);
            assert(ops.drop_last() =~= Seq::empty());
            assert(m.replayed(ops.drop_last(), live) == m);
        },
    }
}

/// Replaying the operations of a list of commands is performing the commands.
pub proof fn lemma_replayed_expanded_all(m: Machine, cmds: Seq<Command>, live: spec_fn(nat) -> int)
    ensures
        m.replayed(expanded_all(cmds), live) == m.performed_all(cmds, live),
    decreases cmds.len(),
{
    if cmds.len() > 0 {
        lemma_replayed_expanded_all(m, cmds.drop_last(), live);
        lemma_replayed_concat(m, expanded_all(cmds.drop_last()), expanded(cmds.last()), live);
        lemma_replayed_expanded(m.performed_all(cmds.drop_last(), live), cmds.last(), live);
    }
}

/// Performing a list of one command.
pub proof fn lemma_performed_one(m: Machine, a: Command, live: spec_fn(nat) -> int)
    ensures
        m.performed_all(seq![a], live) == m.performed(a, live),
{
    assert(seq![a].drop_last() =~= Seq::empty());
    assert(m.performed_all(seq![a].drop_last(), live) == m);
}

/// Performing a list of two commands.
pub proof fn lemma_performed_two(m: Machine, a: Command, b: Command, live: spec_fn(nat) -> int)
    ensures
        m.performed_all(seq![a, b], live) == m.performed(a, live).performed(b, live),
{
    assert(seq![a, b].drop_last() =~= seq![a]);
    lemma_performed_one(m, a, live);
}

/// The cursor stands at `pos`, and every register holds its literal.
pub open spec fn ready(m: Machine, table: Seq<u32>, pos: u32) -> bool {
    &&& m.cursor == pos
    &&& forall|r: int| 0 <= r < table.len() ==> #[trigger] m.tape[r] == table[r]
}

/// The primitive call that an action stands for. `reading` is the live quantity
/// that the action reads, where it reads one.
pub open spec fn called(a: Action, pills: bool, reading: int) -> Call {
    match a {
        Action::Transfer { amount, source, target } => Call::Transfer {
            source: source as int,
            target: target as int,
            amount: amount as int,
        },
        Action::Heat { temp, target } => Call::Heat {
            target: target as int,
            up: if temp > BASELINE {
                temp - BASELINE
            } else {
                0
            },
            down: if temp > BASELINE {
                0
            } else {
                BASELINE - temp
            },
        },
        Action::Eject { target } => Call::Transfer {
            source: target as int,
            target: EJECT as int,
            amount: ALL as int,
        },
        Action::DumpByproduct { target, remaining } => Call::Transfer {
            source: target as int,
            target: byproduct_sink(pills) as int,
            amount: reading - remaining,
        },
        Action::EjectDownTo { target, amount } => Call::Transfer {
            source: target as int,
            target: byproduct_sink(pills) as int,
            amount: reading - amount,
        },
        Action::CreateBottle { target, amount } => Call::Transfer {
            source: target as int,
            target: MAKE_VIAL as int,
            amount: amount as int,
        },
        Action::CreatePill { target, amount } => Call::Transfer {
            source: target as int,
            target: MAKE_PILL as int,
            amount: amount as int,
        },
    }
}

/// The action reads a live quantity.
pub open spec fn reads_live(a: Action) -> bool {
    a is DumpByproduct || a is EjectDownTo
}

/// How many of the first `n` actions read a live quantity.
pub open spec fn reads_in(actions: Seq<Action>, n: int) -> nat
    decreases n,
{
    if n <= 0 {
        0
    } else {
        reads_in(actions, n - 1) + if reads_live(actions[n - 1]) {
            1nat
        } else {
            0nat
        }
    }
}

/// The primitive calls that the first `n` actions stand for, in their order.
pub open spec fn calls_of(actions: Seq<Action>, pills: bool, live: spec_fn(nat) -> int, n: int) -> Seq<
    Call,
>
    decreases n,
{
    if n <= 0 {
        Seq::empty()
    } else {
        calls_of(actions, pills, live, n - 1).push(
            called(actions[n - 1], pills, live(reads_in(actions, n - 1))),
        )
    }
}

/// Loading a literal: after the move to its register and the copy, the accumulator
/// holds the literal, and nothing else has changed but the cursor.
pub proof fn lemma_load(
    m: Machine,
    table: Seq<u32>,
    pos: u32,
    c: u32,
    sink: Command,
    live: spec_fn(nat) -> int,
)
    requires
        ready(m, table, pos),
        table.contains(c),
        table.len() <= u32::MAX,
        sink is ToSx || sink is ToTx || sink is ToAx,
    ensures
        ({
            let after = m.performed_all(seq![seek_constant(table, pos, c).0, sink], live);
            &&& ready(after, table, seek_constant(table, pos, c).1)
            &&& after.tape == m.tape
            &&& after.calls == m.calls
            &&& after.reads == m.reads
            &&& after.source == if sink is ToSx {
                c as int
            } else {
                m.source
            }
            &&& after.target == if sink is ToTx {
                c as int
            } else {
                m.target
            }
            &&& after.amount == if sink is ToAx {
                c as int
            } else {
                m.amount
            }
        }),
{
    lemma_register_of(table, c);
    let r = register_of(table, c)->Some_0;
    let go = seek_constant(table, pos, c).0;
    lemma_performed_two(m, go, sink, live);
    let moved = m.performed(go, live);
    assert(moved.cursor == r);
    assert(moved.tape[r] == table[r]);
}

/// Filling the registers: from the fresh machine, the first `n` registers get their
/// literals, and nothing else changes.
pub proof fn lemma_filled(table: Seq<u32>, n: int, live: spec_fn(nat) -> int)
    requires
        0 <= n <= table.len() <= u32::MAX,
    ensures
        ({
            let after = fresh().performed_all(filled(table, 0, n).0, live);
            &&& after.cursor == filled(table, 0, n).1
            &&& filled(table, 0, n).1 == if n == 0 {
                0
            } else {
                n - 1
            }
            &&& forall|r: int| 0 <= r < n ==> #[trigger] after.tape[r] == table[r]
            &&& forall|r: int| n <= r ==> #[trigger] after.tape[r] == 0
            &&& after.calls == fresh().calls
            &&& after.reads == 0
        }),
    decreases n,
{
    if n > 0 {
        lemma_filled(table, n - 1, live);
        let (before, p) = filled(table, 0, n - 1);
        let (go, at) = seek(p, (n - 1) as u32);
        let add = Command::Add(table[n - 1]);
        let m1 = fresh().performed_all(before, live);
        lemma_performed_concat(fresh(), before, seq![go, add], live);
        lemma_performed_two(m1, go, add, live);
        let m2 = m1.performed(go, live);
        assert(m2.cursor == n - 1);
        assert(m2.tape[n - 1] == 0);
    }
}

/// Moving an amount from a source to a sink makes one transfer call with these.
pub proof fn lemma_moving(
    m: Machine,
    table: Seq<u32>,
    pos: u32,
    source: u32,
    amount: u32,
    sink: u32,
    live: spec_fn(nat) -> int,
)
    requires
        ready(m, table, pos),
        table.contains(source),
        table.contains(amount),
        table.contains(sink),
        table.len() <= u32::MAX,
    ensures
        ({
            let after = m.performed_all(moving(table, pos, source, amount, sink).0, live);
            &&& ready(after, table, moving(table, pos, source, amount, sink).1)
            &&& after.calls == m.calls.push(
                Call::Transfer {
                    source: source as int,
                    target: sink as int,
                    amount: amount as int,
                },
            )
            &&& after.reads == m.reads
        }),
{
    let (c1, at1) = seek_constant(table, pos, source);
    let (c2, at2) = seek_constant(table, at1, amount);
    let (c3, at3) = seek_constant(table, at2, sink);
    let s1 = seq![c1, Command::ToSx];
    let s2 = seq![c2, Command::ToAx];
    let s3 = seq![c3, Command::ToTx];
    let s4 = seq![Command::Transfer];
    assert(moving(table, pos, source, amount, sink).0 =~= s1 + s2 + s3 + s4);
    lemma_performed_concat(m, s1 + s2 + s3, s4, live);
    lemma_performed_concat(m, s1 + s2, s3, live);
    lemma_performed_concat(m, s1, s2, live);
    lemma_load(m, table, pos, source, Command::ToSx, live);
    let m1 = m.performed_all(s1, live);
    lemma_load(m1, table, at1, amount, Command::ToAx, live);
    let m2 = m1.performed_all(s2, live);
    lemma_load(m2, table, at2, sink, Command::ToTx, live);
    let m3 = m2.performed_all(s3, live);
    lemma_performed_one(m3, Command::Transfer, live);
}

/// Purging a source down to `keep` units makes one transfer call, of what the
/// reservoir is read to hold less `keep`.
pub proof fn lemma_purging(
    m: Machine,
    table: Seq<u32>,
    pos: u32,
    source: u32,
    keep: u32,
    sink: u32,
    live: spec_fn(nat) -> int,
)
    requires
        ready(m, table, pos),
        table.contains(source),
        table.contains(sink),
        table.len() <= u32::MAX,
    ensures
        ({
            let after = m.performed_all(purging(table, pos, source, keep, sink).0, live);
            &&& ready(after, table, purging(table, pos, source, keep, sink).1)
            &&& after.calls == m.calls.push(
                Call::Transfer {
                    source: source as int,
                    target: sink as int,
                    amount: live(m.reads) - keep,
                },
            )
            &&& after.reads == m.reads + 1
        }),
{
    let scratch = table.len() as u32;
    let (c1, at1) = seek_constant(table, pos, source);
    let (c2, at2) = seek(at1, scratch);
    let (c3, at3) = seek_constant(table, at2, sink);
    let s1 = seq![c1, Command::ToSx];
    let s2 = seq![Command::Get, c2];
    let s3 = seq![Command::FromAx, Command::Subtract(keep)];
    let s4 = seq![Command::ToAx];
    let s5 = seq![c3, Command::ToTx];
    let s6 = seq![Command::Transfer];
    assert(purging(table, pos, source, keep, sink).0 =~= s1 + s2 + s3 + s4 + s5 + s6);
    lemma_performed_concat(m, s1 + s2 + s3 + s4 + s5, s6, live);
    lemma_performed_concat(m, s1 + s2 + s3 + s4, s5, live);
    lemma_performed_concat(m, s1 + s2 + s3, s4, live);
    lemma_performed_concat(m, s1 + s2, s3, live);
    lemma_performed_concat(m, s1, s2, live);
    lemma_load(m, table, pos, source, Command::ToSx, live);
    let m1 = m.performed_all(s1, live);
    lemma_performed_two(m1, Command::Get, c2, live);
    let m2 = m1.performed_all(s2, live);
    assert(m2.cursor == scratch);
    assert(m2.amount == live(m.reads));
    lemma_performed_two(m2, Command::FromAx, Command::Subtract(keep), live);
    let m3 = m2.performed_all(s3, live);
    assert(m3.cursor == scratch);
    assert(m3.tape[scratch as int] == live(m.reads) - keep);
    assert forall|r: int| 0 <= r < table.len() implies #[trigger] m3.tape[r] == table[r] by {
        assert(m1.tape[r] == table[r]);
    }
    lemma_performed_one(m3, Command::ToAx, live);
    let m4 = m3.performed_all(s4, live);
    assert(ready(m4, table, scratch));
    lemma_load(m4, table, scratch, sink, Command::ToTx, live);
    let m5 = m4.performed_all(s5, live);
    lemma_performed_one(m5, Command::Transfer, live);
}

/// Performing the commands of an action makes the call that the action stands for,
/// and leaves the registers as they were.
pub proof fn lemma_lowered(
    m: Machine,
    a: Action,
    table: Seq<u32>,
    pos: u32,
    pills: bool,
    live: spec_fn(nat) -> int,
)
    requires
        ready(m, table, pos),
        covers(table, a),
        has_forced(table),
        table.len() <= u32::MAX,
    ensures
        ({
            let after = m.performed_all(lowered(a, table, pos, pills).0, live);
            &&& ready(after, table, lowered(a, table, pos, pills).1)
            &&& after.calls == m.calls.push(called(a, pills, live(m.reads)))
            &&& after.reads == m.reads + if reads_live(a) {
                1nat
            } else {
                0nat
            }
        }),
{
    let lits = literals(a);
    assert(table.contains(lits[0]));
    if lits.len() >= 2 {
        assert(table.contains(lits[1]));
    }
    if lits.len() >= 3 {
        assert(table.contains(lits[2]));
    }
    match a {
        Action::Transfer { amount, source, target } => {
            let (c1, at1) = seek_constant(table, pos, amount);
            let (c2, at2) = seek_constant(table, at1, source);
            let (c3, at3) = seek_constant(table, at2, target);
            let s1 = seq![c1, Command::ToAx];
            let s2 = seq![c2, Command::ToSx];
            let s3 = seq![c3, Command::ToTx];
            let s4 = seq![Command::Transfer];
            assert(lowered(a, table, pos, pills).0 =~= s1 + s2 + s3 + s4);
            lemma_performed_concat(m, s1 + s2 + s3, s4, live);
            lemma_performed_concat(m, s1 + s2, s3, live);
            lemma_performed_concat(m, s1, s2, live);
            lemma_load(m, table, pos, amount, Command::ToAx, live);
            let m1 = m.performed_all(s1, live);
            lemma_load(m1, table, at1, source, Command::ToSx, live);
            let m2 = m1.performed_all(s2, live);
            lemma_load(m2, table, at2, target, Command::ToTx, live);
            let m3 = m2.performed_all(s3, live);
            lemma_performed_one(m3, Command::Transfer, live);
        },
        Action::Heat { temp, target } => {
            let (up, down) = if temp > BASELINE {
                ((temp - BASELINE) as u32, ZERO)
            } else {
                (ZERO, (BASELINE - temp) as u32)
            };
            let (c1, at1) = seek_constant(table, pos, up);
            let (c2, at2) = seek_constant(table, at1, down);
            let (c3, at3) = seek_constant(table, at2, target);
            let s1 = seq![c1, Command::ToAx];
            let s2 = seq![c2, Command::ToTx];
            let s3 = seq![c3, Command::ToSx];
            let s4 = seq![Command::Heat];
            assert(lowered(a, table, pos, pills).0 =~= s1 + s2 + s3 + s4);
            lemma_performed_concat(m, s1 + s2 + s3, s4, live);
            lemma_performed_concat(m, s1 + s2, s3, live);
            lemma_performed_concat(m, s1, s2, live);
            lemma_load(m, table, pos, up, Command::ToAx, live);
            let m1 = m.performed_all(s1, live);
            lemma_load(m1, table, at1, down, Command::ToTx, live);
            let m2 = m1.performed_all(s2, live);
            lemma_load(m2, table, at2, target, Command::ToSx, live);
            let m3 = m2.performed_all(s3, live);
            lemma_performed_one(m3, Command::Heat, live);
        },
        Action::Eject { target } => {
            lemma_moving(m, table, pos, target, ALL, EJECT, live);
        },
        Action::DumpByproduct { target, remaining } => {
            lemma_purging(m, table, pos, target, remaining, byproduct_sink(pills), live);
        },
        Action::EjectDownTo { target, amount } => {
            lemma_purging(m, table, pos, target, amount, byproduct_sink(pills), live);
        },
        Action::CreateBottle { target, amount } => {
            lemma_moving(m, table, pos, target, amount, MAKE_VIAL, live);
        },
        Action::CreatePill { target, amount } => {
            lemma_moving(m, table, pos, target, amount, MAKE_PILL, live);
        },
    }
}

/// Performing the commands of the first `n` actions makes their calls in their order.
pub proof fn lemma_lowered_all(
    m: Machine,
    actions: Seq<Action>,
    table: Seq<u32>,
    pos: u32,
    pills: bool,
    live: spec_fn(nat) -> int,
    n: int,
)
    requires
        0 <= n <= actions.len(),
        ready(m, table, pos),
        forall|i: int| 0 <= i < actions.len() ==> covers(table, #[trigger] actions[i]),
        has_forced(table),
        table.len() <= u32::MAX,
        m.reads == 0,
        m.calls == Seq::<Call>::empty(),
    ensures
        ({
            let after = m.performed_all(lowered_all(actions, table, pos, pills, n).0, live);
            &&& ready(after, table, lowered_all(actions, table, pos, pills, n).1)
            &&& after.calls == calls_of(actions, pills, live, n)
            &&& after.reads == reads_in(actions, n)
        }),
    decreases n,
{
    if n > 0 {
        lemma_lowered_all(m, actions, table, pos, pills, live, n - 1);
        let (before, p) = lowered_all(actions, table, pos, pills, n - 1);
        let more = lowered(actions[n - 1], table, p, pills).0;
        let m1 = m.performed_all(before, live);
        lemma_performed_concat(m, before, more, live);
        lemma_lowered(m1, actions[n - 1], table, p, pills, live);
    }
}

/// The round trip: the text of the compiled log reads back as operations, and
/// these, replayed on the fresh machine, make exactly the primitive calls that the
/// log stands for, in its order, and leave every register with its literal.
pub proof fn lemma_round_trip(actions: Seq<Action>, pills: bool, live: spec_fn(nat) -> int)
    requires
        3 * actions.len() + 5 <= u32::MAX,
    ensures
        decoded(bytecode(compiled(actions, pills))) is Some,
        ({
            let ops = decoded(bytecode(compiled(actions, pills)))->Some_0;
            let after = fresh().replayed(ops, live);
            let table = register_table(actions);
            &&& after.calls == calls_of(actions, pills, live, actions.len() as int)
            &&& forall|r: int| 0 <= r < table.len() ==> #[trigger] after.tape[r] == table[r]
        }),
{
    let cmds = compiled(actions, pills);
    let table = register_table(actions);
    let (fill, pos) = filled(table, 0, table.len() as int);
    let low = lowered_all(actions, table, pos, pills, actions.len() as int).0;
    lemma_decoded_bytecode(cmds);
    lemma_replayed_expanded_all(fresh(), cmds, live);
    lemma_performed_concat(fresh(), fill, low, live);
    lemma_register_table(actions);
    lemma_log_literals_len(actions);
    lemma_filled(table, table.len() as int, live);
    let m = fresh().performed_all(fill, live);
    assert forall|i: int| 0 <= i < actions.len() implies covers(table, #[trigger] actions[i]) by {
        assert forall|k: int| 0 <= k < literals(actions[i]).len() implies table.contains(
            #[trigger] literals(actions[i])[k],
        ) by {
            lemma_log_literals_contains(actions, i, k);
        }
    }
    lemma_lowered_all(m, actions, table, pos, pills, live, actions.len() as int);
}

} // verus!
