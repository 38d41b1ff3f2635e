//! Turning an application's command line into a program and its arguments.

use vstd::prelude::*;

use crate::text::{is_space, lemma_words_shape, split_whitespace, words};

verus! {

/// The program and arguments that a command line names: its first
/// white-space separated word and the words after it; `None` when the line
/// holds no word.
pub open spec fn command_parts(command: Seq<char>) -> Option<(Seq<char>, Seq<Seq<char>>)> {
    if words(command).len() == 0 {
        None
    } else {
        Some((words(command)[0], words(command).skip(1)))
    }
}

/// The program to start for `command` and the arguments to hand it, split at
/// white space; `None` when the command line is blank.
pub fn split_command(command: &str) -> (r: Option<(String, Vec<String>)>)
    ensures
        match r {
            Some((program, args)) => command_parts(command@) == Some(
                (program@, args@.map_values(|w: String| w@)),
            ),
            None => command_parts(command@) is None,
        },
        r is None <==> words(command@).len() == 0,
        r matches Some((program, args)) ==> seq![program@] + args@.map_values(|w: String| w@)
            == words(command@),
{
    let mut parts = split_whitespace(command);
    let ghost all = parts@.map_values(|w: String| w@);
    assert(all.len() == parts@.len());
    if parts.len() == 0 {
        return None;
    }
    let program = parts.remove(0);
    assert(parts@.map_values(|w: String| w@) =~= all.skip(1));
    assert(seq![program@] + all.skip(1) =~= all);
    Some((program, parts))
}

/// Law: a command line names a program exactly when it holds a word, and
/// then the program followed by its arguments gives back every word of the
/// line, in order: no word is lost or added.
pub proof fn lemma_command_parts_words(command: Seq<char>)
    ensures
        command_parts(command) is None <==> words(command).len() == 0,
        command_parts(command) matches Some((program, args)) ==> seq![program] + args == words(
            command,
        ),
{
    let w = words(command);
    if w.len() > 0 {
        assert(seq![w[0]] + w.skip(1) =~= w);
    }
}

/// Law: the program and each argument are non-empty and hold no white
/// space.
pub proof fn lemma_command_parts_shape(command: Seq<char>)
    ensures
        command_parts(command) matches Some((program, args)) ==> {
            &&& program.len() > 0
            &&& forall|k: int| 0 <= k < program.len() ==> !is_space(#[trigger] program[k])
            &&& forall|i: int| 0 <= i < args.len() ==> (#[trigger] args[i]).len() > 0
            &&& forall|i: int, k: int|
                0 <= i < args.len() && 0 <= k < args[i].len() ==> !is_space(#[trigger] args[i][k])
        },
{
    lemma_words_shape(command);
    let w = words(command);
    if w.len() > 0 {
        assert forall|i: int| 0 <= i < w.skip(1).len() implies (#[trigger] w.skip(1)[i]).len() > 0 by {
            assert(w.skip(1)[i] == w[i + 1]);
        }
        assert forall|i: int, k: int|
            0 <= i < w.skip(1).len() && 0 <= k < w.skip(1)[i].len() implies !is_space(
                #[trigger] w.skip(1)[i][k],
            ) by {
            assert(w.skip(1)[i] == w[i + 1]);
        }
        assert forall|k: int| 0 <= k < w[0].len() implies !is_space(#[trigger] w[0][k]) by {
        }
    }
}

} // verus!
