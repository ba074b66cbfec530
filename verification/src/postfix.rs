//! The commands of a parsed Postfix program.
use vstd::prelude::*;

verus! {

/// An arithmetic or comparison command, which pops two values and pushes one.
#[derive(Clone, Copy, Debug, PartialEq, Eq, Structural)]
pub enum BinaryOp {
    Add,
    Sub,
    Mul,
    Div,
    Rem,
    LT,
    GT,
    EQ,
}

/// A command of a parsed Postfix program.
#[derive(Debug, PartialEq)]
pub enum Command {
    Number(isize),
    ExecutableSequence(Vec<Command>),
    Swap,
    Pop,
    Nget,
    Exec,
    Sel,
    BinaryOp(BinaryOp),
}

/// What a command stands for, with an executable sequence as a `Seq`.
pub enum CommandModel {
    Number(isize),
    ExecutableSequence(Seq<CommandModel>),
    Swap,
    Pop,
    Nget,
    Exec,
    Sel,
    BinaryOp(BinaryOp),
}

impl Command {
    /// The model of this command.
    pub open spec fn model(self) -> CommandModel
        decreases self,
    {
        match self {
            Command::Number(n) => CommandModel::Number(n),
            Command::ExecutableSequence(v) => CommandModel::ExecutableSequence(
                commands_model(v@),
            ),
            Command::Swap => CommandModel::Swap,
            Command::Pop => CommandModel::Pop,
            Command::Nget => CommandModel::Nget,
            Command::Exec => CommandModel::Exec,
            Command::Sel => CommandModel::Sel,
            Command::BinaryOp(op) => CommandModel::BinaryOp(op),
        }
    }
}

/// The models of a sequence of commands.
pub open spec fn commands_model(cs: Seq<Command>) -> Seq<CommandModel>
    decreases cs,
{
    if cs.len() == 0 {
        Seq::empty()
    } else {
        commands_model(cs.drop_last()).push(cs.last().model())
    }
}

} // verus!

verus! {

/// The model of a sequence with one more command is the model of the
/// sequence with the model of that command after it.
pub proof fn lemma_commands_model_push(v: Seq<Command>, c: Command)
    ensures
        commands_model(v.push(c)) == commands_model(v).push(c.model()),
{
    assert(v.push(c).drop_last() =~= v);
    assert(v.push(c).last() == c);
}

} // verus!
