//! The text of a command list: one character for each primitive, repeated for the
//! commands that count, and an end marker.

use crate::compiler::lowering::Command;
use vstd::prelude::*;
use vstd::string::StringExecFns;

verus! {

/// The character that ends a program.
pub open spec fn end_marker() -> char {
    '~'
}

/// `c`, `n` times.
pub open spec fn repeated(c: char, n: nat) -> Seq<char> {
    Seq::new(n, |i: int| c)
}

/// The text of one command.
pub open spec fn encoded(cmd: Command) -> Seq<char> {
    match cmd {
        Command::CursorRight(n) => repeated('>', n as nat),
        Command::CursorLeft(n) => repeated('<', n as nat),
        Command::Add(n) => repeated('+', n as nat),
        Command::Subtract(n) => repeated('-', n as nat),
        Command::Get => seq![','],
        Command::ToSx => seq!['}'],
        Command::FromSx => seq!['{'],
        Command::ToTx => seq![')'],
        Command::FromTx => seq!['('],
        Command::ToAx => seq!['\''],
        Command::FromAx => seq!['^'],
        Command::Heat => seq!['$'],
        Command::Transfer => seq!['@'],
        Command::NoOp => Seq::empty(),
    }
}

/// The text of a list of commands, without the end marker.
pub open spec fn encoded_all(commands: Seq<Command>) -> Seq<char>
    decreases commands.len(),
{
    if commands.len() == 0 {
        Seq::empty()
    } else {
        encoded_all(commands.drop_last()) + encoded(commands.last())
    }
}

/// The text of a program: its commands in their order, then the end marker.
pub open spec fn bytecode(commands: Seq<Command>) -> Seq<char> {
    encoded_all(commands).push(end_marker())
}

/// Appends `symbol` to `code`, `n` times.
fn push_repeated(code: &mut String, symbol: &str, n: u32)
    requires
        symbol@.len() == 1,
    ensures
        final(code)@ == old(code)@ + repeated(symbol@[0], n as nat),
{
    let mut i: u32 = 0;
    assert(code@ =~= old(code)@ + repeated(symbol@[0], 0));
    while i < n
        invariant
            i <= n,
            symbol@.len() == 1,
            code@ == old(code)@ + repeated(symbol@[0], i as nat),
        decreases n - i,
    {
        code.append(symbol);
        i += 1;
        assert(code@ =~= old(code)@ + repeated(symbol@[0], i as nat));
    }
}

/// Writes the commands in the opcode alphabet, with the end marker behind them.
pub fn to_bytecode(commands: &Vec<Command>) -> (code: String)
    ensures
        code@ == bytecode(commands@),
{
    let mut code = String::new();
    let mut i: usize = 0;
    proof {
        reveal_strlit(">");
        reveal_strlit("<");
        reveal_strlit("+");
        reveal_strlit("-");
        reveal_strlit(",");
        reveal_strlit("}");
        reveal_strlit("{");
        reveal_strlit(")");
        reveal_strlit("(");
        reveal_strlit("'");
        reveal_strlit("^");
        reveal_strlit("$");
        reveal_strlit("@");
        reveal_strlit("~");
        assert(commands@.take(0) =~= Seq::empty());
    }
    while i < commands.len()
        invariant
            i <= commands.len(),
            code@ == encoded_all(commands@.take(i as int)),
            ">"@ == seq!['>'],
            "<"@ == seq!['<'],
            "+"@ == seq!['+'],
            "-"@ == seq!['-'],
            ","@ == seq![','],
            "}"@ == seq!['}'],
            "{"@ == seq!['{'],
            ")"@ == seq![')'],
            "("@ == seq!['('],
            "'"@ == seq!['\''],
            "^"@ == seq!['^'],
            "$"@ == seq!['$'],
            "@"@ == seq!['@'],
        decreases commands.len() - i,
    {
        proof {
            assert(commands@.take(i + 1).drop_last() =~= commands@.take(i as int));
            assert(commands@.take(i + 1).last() == commands@[i as int]);
        }
        match commands[i] {
            Command::CursorRight(amount) => push_repeated(&mut code, ">", amount),
            Command::CursorLeft(amount) => push_repeated(&mut code, "<", amount),
            Command::Add(amount) => push_repeated(&mut code, "+", amount),
            Command::Subtract(amount) => push_repeated(&mut code, "-", amount),
            Command::Get => code.append(","),
            Command::ToSx => code.append("}"),
            Command::FromSx => code.append("{"),
            Command::ToTx => code.append(")"),
            Command::FromTx => code.append("("),
            Command::ToAx => code.append("'"),
            Command::FromAx => code.append("^"),
            Command::Heat => code.append("$"),
            Command::Transfer => code.append("@"),
            Command::NoOp => {
                assert(code@ + Seq::<char>::empty() =~= code@);
            },
        }
        i += 1;
    }
    assert(commands@.take(i as int) =~= commands@);
    code.append("~");
    assert(code@ =~= bytecode(commands@));
    code
}

} // verus!
