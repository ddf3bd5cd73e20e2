//! Register allocation: every literal that an action log names gets one register, in
//! the order in which the literals first appear.

use crate::calculator::action::Action;
use crate::seqs::{first_index, lemma_first_index};
use vstd::prelude::*;

verus! {

/// The constant 0.
pub const ZERO: u32 = 0;

/// The pseudo-target that makes a pill of what is transferred to it.
pub const MAKE_PILL: u32 = 11;

/// The pseudo-target that bottles what is transferred to it.
pub const MAKE_VIAL: u32 = 12;

/// The pseudo-target that ejects what is transferred to it.
pub const EJECT: u32 = 13;

/// The amount that stands for all that a reservoir holds.
pub const ALL: u32 = 100;

/// The temperature that heating is measured from.
pub const BASELINE: u32 = 273;

/// The constants that get a register whether or not an action names them.
pub open spec fn forced_constants() -> Seq<u32> {
    seq![ZERO, MAKE_PILL, MAKE_VIAL, EJECT, ALL]
}

/// How far `temp` is from the baseline, in either direction.
pub open spec fn heat_offset(temp: u32) -> u32 {
    if temp > BASELINE {
        (temp - BASELINE) as u32
    } else {
        (BASELINE - temp) as u32
    }
}

/// The literals that an action names, in the order in which they get their registers.
pub open spec fn literals(a: Action) -> Seq<u32> {
    match a {
        Action::Transfer { amount, source, target } => seq![amount, source, target],
        Action::Heat { temp, target } => seq![heat_offset(temp), target],
        Action::Eject { target } => seq![target],
        Action::DumpByproduct { target, remaining } => seq![target, remaining],
        Action::EjectDownTo { target, amount } => seq![target, amount],
        Action::CreateBottle { target, amount } => seq![target, amount],
        Action::CreatePill { target, amount } => seq![target, amount],
    }
}

/// The literals of a log of actions, in order.
pub open spec fn log_literals(actions: Seq<Action>) -> Seq<u32>
    decreases actions.len(),
{
    if actions.len() == 0 {
        Seq::empty()
    } else {
        log_literals(actions.drop_last()) + literals(actions.last())
    }
}

/// The table after literal `c` was given a register: a new one behind the others
/// where it has none yet.
pub open spec fn with_constant(table: Seq<u32>, c: u32) -> Seq<u32> {
    if table.contains(c) {
        table
    } else {
        table.push(c)
    }
}

/// The table after each of `lits` was given a register, one after the other.
pub open spec fn with_constants(table: Seq<u32>, lits: Seq<u32>) -> Seq<u32>
    decreases lits.len(),
{
    if lits.len() == 0 {
        table
    } else {
        with_constant(with_constants(table, lits.drop_last()), lits.last())
    }
}

/// The register table of a log of actions: position `r` holds the literal of
/// register `r`. The literals of the log come first, then the forced constants.
pub open spec fn register_table(actions: Seq<Action>) -> Seq<u32> {
    with_constants(with_constants(Seq::empty(), log_literals(actions)), forced_constants())
}

/// Being literal `c`, as a predicate on literals.
pub open spec fn equal_to(c: u32) -> spec_fn(u32) -> bool {
    |x: u32| x == c
}

/// The register of literal `c`.
pub open spec fn register_of(table: Seq<u32>, c: u32) -> Option<int> {
    first_index(table, equal_to(c))
}

/// `register_of` finds the literal where the table holds it.
pub proof fn lemma_register_of(table: Seq<u32>, c: u32)
    ensures
        match register_of(table, c) {
            Some(r) => 0 <= r < table.len() && table[r] == c,
            None => !table.contains(c),
        },
        table.contains(c) ==> register_of(table, c) is Some,
{
    let p = equal_to(c);
    lemma_first_index(table, p);
    match first_index(table, p) {
        Some(r) => {
            assert(p(table[r]));
        },
        None => {
            if table.contains(c) {
                let i = choose|i: int| 0 <= i < table.len() && table[i] == c;
                assert(p(table[i]));
            }
        },
    }
}

/// Giving registers to one literal after the other is giving them to all.
pub proof fn lemma_with_constants_concat(table: Seq<u32>, a: Seq<u32>, b: Seq<u32>)
    ensures
        with_constants(table, a + b) == with_constants(with_constants(table, a), b),
    decreases b.len(),
{
    if b.len() == 0 {
        assert(a + b =~= a);
    } else {
        assert((a + b).drop_last() =~= a + b.drop_last());
        lemma_with_constants_concat(table, a, b.drop_last());
    }
}

/// What allocation keeps and adds: a table without repetition stays so; it grows by
/// no more than the literals given; what it held stays where it was; and
/// afterwards it holds exactly what it held and the literals given.
pub proof fn lemma_with_constants(table: Seq<u32>, lits: Seq<u32>)
    requires
        table.no_duplicates(),
    ensures
        with_constants(table, lits).no_duplicates(),
        table.len() <= with_constants(table, lits).len() <= table.len() + lits.len(),
        forall|r: int| 0 <= r < table.len() ==> with_constants(table, lits)[r] == table[r],
        forall|c: u32|
            with_constants(table, lits).contains(c) <==> (table.contains(c) || lits.contains(c)),
    decreases lits.len(),
{
    if lits.len() > 0 {
        let head = with_constants(table, lits.drop_last());
        lemma_with_constants(table, lits.drop_last());
        let all = with_constants(table, lits);
        assert forall|c: u32| all.contains(c) <==> (table.contains(c) || lits.contains(c)) by {
            if lits.contains(c) {
                let i = choose|i: int| 0 <= i < lits.len() && lits[i] == c;
                if i < lits.len() - 1 {
                    assert(lits.drop_last()[i] == c);
                    assert(lits.drop_last().contains(c));
                    assert(head.contains(c));
                }
            }
            if head.contains(c) {
                let i = choose|i: int| 0 <= i < head.len() && head[i] == c;
                assert(all[i] == c);
                if lits.drop_last().contains(c) {
                    let j = choose|j: int| 0 <= j < lits.drop_last().len() && lits.drop_last()[j] == c;
                    assert(lits[j] == c);
                }
            }
            if all.contains(c) && !head.contains(c) {
                assert(lits[lits.len() - 1] == c);
            }
            if c == lits.last() {
                assert(lits[lits.len() - 1] == c);
                if !head.contains(c) {
                    assert(all[all.len() - 1] == c);
                }
            }
        }
    }
}

/// Registers are given in the order in which the literals first appear: of two
/// literals, the one whose first appearance comes first has the lower register.
pub proof fn lemma_first_seen_order(lits: Seq<u32>, i: int, j: int)
    requires
        0 <= i < j < lits.len(),
        forall|k: int| 0 <= k < j ==> lits[k] != lits[j],
    ensures
        ({
            let table = with_constants(Seq::empty(), lits);
            &&& register_of(table, lits[i]) matches Some(ri)
            &&& register_of(table, lits[j]) matches Some(rj)
            &&& ri < rj
        }),
{
    let head = lits.take(j);
    let upto = lits.take(j + 1);
    assert(upto.drop_last() =~= head);
    assert(lits =~= upto + lits.skip(j + 1));
    let t0 = with_constants(Seq::empty(), head);
    let t1 = with_constants(Seq::empty(), upto);
    let table = with_constants(Seq::empty(), lits);
    lemma_with_constants(Seq::empty(), head);
    lemma_with_constants(Seq::empty(), upto);
    lemma_with_constants_concat(Seq::empty(), upto, lits.skip(j + 1));
    lemma_with_constants(t1, lits.skip(j + 1));
    assert(head[i] == lits[i]);
    assert(!head.contains(lits[j])) by {
        if head.contains(lits[j]) {
            let k = choose|k: int| 0 <= k < head.len() && head[k] == lits[j];
            assert(lits[k] == lits[j]);
        }
    }
    assert(head.contains(lits[i]));
    assert(t0.contains(lits[i]));
    assert(!t0.contains(lits[j]));
    assert(t1 == t0.push(lits[j]));
    let ri = choose|r: int| 0 <= r < t0.len() && t0[r] == lits[i];
    assert(t1[ri] == lits[i]);
    assert(table[ri] == lits[i]);
    assert(table[t0.len() as int] == t1[t0.len() as int]);
    lemma_register_of(table, lits[i]);
    lemma_register_of(table, lits[j]);
    assert(table.contains(lits[i]));
    assert(table.contains(lits[j]));
}

/// Every literal of a log, and every forced constant, has exactly one register.
pub proof fn lemma_register_table(actions: Seq<Action>)
    ensures
        register_table(actions).no_duplicates(),
        register_table(actions).len() <= log_literals(actions).len() + 5,
        forall|c: u32| #[trigger]
            log_literals(actions).contains(c) ==> register_table(actions).contains(c),
        register_table(actions).contains(ZERO),
        register_table(actions).contains(MAKE_PILL),
        register_table(actions).contains(MAKE_VIAL),
        register_table(actions).contains(EJECT),
        register_table(actions).contains(ALL),
{
    let first = with_constants(Seq::empty(), log_literals(actions));
    lemma_with_constants(Seq::empty(), log_literals(actions));
    lemma_with_constants(first, forced_constants());
    let forced = forced_constants();
    assert(forced[0] == ZERO && forced[1] == MAKE_PILL && forced[2] == MAKE_VIAL && forced[3]
        == EJECT && forced[4] == ALL);
    assert(forced.contains(ZERO) && forced.contains(MAKE_PILL) && forced.contains(MAKE_VIAL)
        && forced.contains(EJECT) && forced.contains(ALL));
}

/// A log has at most three literals for each action.
pub proof fn lemma_log_literals_len(actions: Seq<Action>)
    ensures
        log_literals(actions).len() <= 3 * actions.len(),
    decreases actions.len(),
{
    if actions.len() > 0 {
        lemma_log_literals_len(actions.drop_last());
    }
}

/// The literals of an action of the log are literals of the log.
pub proof fn lemma_log_literals_contains(actions: Seq<Action>, i: int, k: int)
    requires
        0 <= i < actions.len(),
        0 <= k < literals(actions[i]).len(),
    ensures
        log_literals(actions).contains(literals(actions[i])[k]),
    decreases actions.len(),
{
    let head = log_literals(actions.drop_last());
    if i == actions.len() - 1 {
        assert(log_literals(actions)[head.len() + k] == literals(actions[i])[k]);
    } else {
        lemma_log_literals_contains(actions.drop_last(), i, k);
        let c = literals(actions[i])[k];
        let at = choose|at: int| 0 <= at < head.len() && head[at] == c;
        assert(log_literals(actions)[at] == c);
    }
}

/// Whether the table holds literal `constant`.
fn has_constant(map: &Vec<u32>, constant: u32) -> (r: bool)
    ensures
        r == map@.contains(constant),
{
    let mut i: usize = 0;
    while i < map.len()
        invariant
            i <= map.len(),
            forall|j: int| 0 <= j < i ==> map@[j] != constant,
        decreases map.len() - i,
    {
        if map[i] == constant {
            return true;
        }
        i += 1;
    }
    false
}

/// Gives literal `constant` the next register, unless it has one.
pub fn add_constant(map: &mut Vec<u32>, constant: u32, counter: &mut u32)
    requires
        *old(counter) == old(map)@.len(),
        *old(counter) < u32::MAX,
    ensures
        final(map)@ == with_constant(old(map)@, constant),
        *final(counter) == final(map)@.len(),
{
    if !has_constant(map, constant) {
        map.push(constant);
        *counter += 1;
    }
}

/// The register table of the log, and the number of its registers: that is the
/// position of the scratch cell behind them.
pub fn extract_constants(actions: &Vec<Action>) -> (r: (Vec<u32>, u32))
    requires
        3 * actions@.len() + 5 <= u32::MAX,
    ensures
        r.0@ == register_table(actions@),
        r.1 == r.0@.len(),
        r.0@.no_duplicates(),
        forall|c: u32| r.0@.contains(c) <==> all_literals(actions@).contains(c),
{
    proof {
        lemma_register_table_exact(actions@);
    }
    let mut map: Vec<u32> = Vec::new();
    let mut register_counter: u32 = 0;
    let mut i: usize = 0;
    assert(actions@.take(0) =~= Seq::empty());
    while i < actions.len()
        invariant
            i <= actions.len(),
            3 * actions@.len() + 5 <= u32::MAX,
            register_counter == map@.len(),
            map@.len() <= 3 * i,
            map@ == with_constants(Seq::empty(), log_literals(actions@.take(i as int))),
        decreases actions.len() - i,
    {
        let ghost before = log_literals(actions@.take(i as int));
        let ghost lits = literals(actions@[i as int]);
        proof {
            assert(actions@.take(i + 1).drop_last() =~= actions@.take(i as int));
            assert(actions@.take(i + 1).last() == actions@[i as int]);
            lemma_with_constants_concat(Seq::empty(), before, lits);
            reveal_with_fuel(with_constants, 4);
            assert(lits.len() <= 3);
            if lits.len() == 3 {
                assert(lits.drop_last().drop_last().drop_last() =~= Seq::empty());
            } else if lits.len() == 2 {
                assert(lits.drop_last().drop_last() =~= Seq::empty());
            } else {
                assert(lits.drop_last() =~= Seq::empty());
            }
        }
        match actions[i] {
            Action::Transfer { amount, source, target } => {
                add_constant(&mut map, amount, &mut register_counter);
                add_constant(&mut map, source, &mut register_counter);
                add_constant(&mut map, target, &mut register_counter);
            },
            Action::Heat { temp, target } => {
                if temp > BASELINE {
                    add_constant(&mut map, temp - BASELINE, &mut register_counter);
                } else {
                    add_constant(&mut map, BASELINE - temp, &mut register_counter);
                }
                add_constant(&mut map, target, &mut register_counter);
            },
            Action::Eject { target } => {
                add_constant(&mut map, target, &mut register_counter);
            },
            Action::DumpByproduct { target, remaining } => {
                add_constant(&mut map, target, &mut register_counter);
                add_constant(&mut map, remaining, &mut register_counter);
            },
            Action::EjectDownTo { target, amount } => {
                add_constant(&mut map, target, &mut register_counter);
                add_constant(&mut map, amount, &mut register_counter);
            },
            Action::CreateBottle { target, amount } => {
                add_constant(&mut map, target, &mut register_counter);
                add_constant(&mut map, amount, &mut register_counter);
            },
            Action::CreatePill { target, amount } => {
                add_constant(&mut map, target, &mut register_counter);
                add_constant(&mut map, amount, &mut register_counter);
            },
        }
        i += 1;
    }
    assert(actions@.take(i as int) =~= actions@);
    proof {
        let forced = forced_constants();
        reveal_with_fuel(with_constants, 6);
        assert(forced.drop_last().drop_last().drop_last().drop_last().drop_last() =~= Seq::empty());
    }
    add_constant(&mut map, ZERO, &mut register_counter);
    add_constant(&mut map, MAKE_PILL, &mut register_counter);
    add_constant(&mut map, MAKE_VIAL, &mut register_counter);
    add_constant(&mut map, EJECT, &mut register_counter);
    add_constant(&mut map, ALL, &mut register_counter);
    (map, register_counter)
}

/// Every literal that gets a register, in the order in which the compiler meets
/// them: those of the log, then the forced constants.
pub open spec fn all_literals(actions: Seq<Action>) -> Seq<u32> {
    log_literals(actions) + forced_constants()
}

/// Stable allocation: of two literals, the one that the compiler meets first has
/// the lower register, however often either is met again.
pub proof fn lemma_register_order(actions: Seq<Action>, i: int, j: int)
    requires
        0 <= i < j < all_literals(actions).len(),
        forall|k: int| 0 <= k < j ==> all_literals(actions)[k] != all_literals(actions)[j],
    ensures
        ({
            let table = register_table(actions);
            let lits = all_literals(actions);
            &&& register_of(table, lits[i]) matches Some(ri)
            &&& register_of(table, lits[j]) matches Some(rj)
            &&& ri < rj
        }),
{
    lemma_with_constants_concat(Seq::empty(), log_literals(actions), forced_constants());
    lemma_first_seen_order(all_literals(actions), i, j);
}

/// The register table holds exactly the literals that the compiler meets, each once:
/// no literal has two registers, and every register is found by its literal.
pub proof fn lemma_register_table_exact(actions: Seq<Action>)
    ensures
        register_table(actions).no_duplicates(),
        forall|c: u32|
            register_table(actions).contains(c) <==> all_literals(actions).contains(c),
        forall|r: int|
            0 <= r < register_table(actions).len() ==> register_of(
                register_table(actions),
                #[trigger] register_table(actions)[r],
            ) == Some(r),
{
    let table = register_table(actions);
    lemma_with_constants_concat(Seq::empty(), log_literals(actions), forced_constants());
    lemma_with_constants(Seq::empty(), all_literals(actions));
    assert forall|c: u32| table.contains(c) <==> all_literals(actions).contains(c) by {
        assert(!Seq::<u32>::empty().contains(c));
    }
    assert forall|r: int| 0 <= r < table.len() implies register_of(table, #[trigger] table[r])
        == Some(r) by {
        lemma_register_of(table, table[r]);
        assert(table.contains(table[r]));
    }
}

/// A forced constant that the log does not name has its register above those of all
/// literals of the log and above those of the forced constants before it.
pub proof fn lemma_reserved_registers(actions: Seq<Action>, k: int, c: u32)
    requires
        0 <= k < forced_constants().len(),
        !log_literals(actions).contains(forced_constants()[k]),
        log_literals(actions).contains(c) || exists|j: int|
            0 <= j < k && forced_constants()[j] == c,
    ensures
        ({
            let table = register_table(actions);
            &&& register_of(table, c) matches Some(rc)
            &&& register_of(table, forced_constants()[k]) matches Some(rk)
            &&& rc < rk
        }),
{
    let log = log_literals(actions);
    let forced = forced_constants();
    let lits = all_literals(actions);
    let at = log.len() + k;
    assert(lits[at] == forced[k]);
    assert forall|m: int| 0 <= m < at implies lits[m] != lits[at] by {
        if m < log.len() {
            assert(lits[m] == log[m]);
            if log[m] == forced[k] {
                assert(log.contains(forced[k]));
            }
        } else {
            assert(lits[m] == forced[m - log.len()]);
        }
    }
    if log.contains(c) {
        let i = choose|i: int| 0 <= i < log.len() && log[i] == c;
        assert(lits[i] == c);
        lemma_register_order(actions, i, at);
    } else {
        let j = choose|j: int| 0 <= j < k && forced_constants()[j] == c;
        assert(lits[log.len() + j] == c);
        lemma_register_order(actions, log.len() + j, at);
    }
}

} // verus!
