//! Command grammar: a frame payload is split on a single `:` separator
//! into an action and an argument. A payload without exactly one `:` is
//! malformed and is silently discarded by the coordinator.

use vstd::prelude::*;
use vstd::string::StrSliceExecFns;

verus! {

/// `i` is the unique separator position of `text`: the only index
/// holding a `:` character.
pub open spec fn is_the_sep(text: Seq<char>, i: int) -> bool {
    &&& 0 <= i < text.len()
    &&& text[i] == ':'
    &&& forall|j: int| 0 <= j < text.len() && j != i ==> text[j] != ':'
}

/// The text splits into exactly two parts on `:`.
pub open spec fn has_one_sep(text: Seq<char>) -> bool {
    exists|i: int| is_the_sep(text, i)
}

/// The position of the unique `:` separator.
pub open spec fn sep_index(text: Seq<char>) -> int {
    choose|i: int| is_the_sep(text, i)
}

/// The action part: everything before the separator.
pub open spec fn action_of(text: Seq<char>) -> Seq<char>
    recommends
        has_one_sep(text),
{
    text.take(sep_index(text))
}

/// The argument part: everything after the separator.
pub open spec fn argument_of(text: Seq<char>) -> Seq<char>
    recommends
        has_one_sep(text),
{
    text.skip(sep_index(text) + 1)
}

pub proof fn lemma_sep_unique(text: Seq<char>, i1: int, i2: int)
    requires
        is_the_sep(text, i1),
        is_the_sep(text, i2),
    ensures
        i1 == i2,
{
}

/// Character-by-character equality of two string slices.
pub fn str_eq(a: &str, b: &str) -> (r: bool)
    ensures
        r == (a@ == b@),
{
    let n = a.unicode_len();
    if n != b.unicode_len() {
        return false;
    }
    let mut i: usize = 0;
    while i < n
        invariant
            0 <= i <= n,
            n == a@.len(),
            n == b@.len(),
            forall|j: int| 0 <= j < i ==> a@[j] == b@[j],
        decreases n - i,
    {
        if a.get_char(i) != b.get_char(i) {
            return false;
        }
        i = i + 1;
    }
    proof {
        assert(a@ =~= b@);
    }
    true
}

/// Splits `text` into its action and argument when it holds exactly one
/// `:` separator, and fails otherwise.
pub fn split_command(text: &str) -> (r: Option<(String, String)>)
    ensures
        r is Some <==> has_one_sep(text@),
        r matches Some(p) ==> p.0@ == action_of(text@) && p.1@ == argument_of(text@),
{
    let n = text.unicode_len();
    let mut i: usize = 0;
    let mut count: usize = 0;
    let mut first: usize = 0;
    let mut second: usize = 0;
    while i < n
        invariant
            0 <= i <= n == text@.len(),
            count <= 2,
            count == 0 ==> forall|j: int| 0 <= j < i ==> text@[j] != ':',
            count >= 1 ==> first < i && text@[first as int] == ':',
            count == 1 ==> forall|j: int| 0 <= j < i && j != first ==> text@[j] != ':',
            count >= 2 ==> second < i && first < second && text@[second as int] == ':',
        decreases n - i,
    {
        let c = text.get_char(i);
        if c == ':' {
            if count == 0 {
                first = i;
                count = 1;
            } else if count == 1 {
                second = i;
                count = 2;
            }
        }
        i = i + 1;
    }
    if count == 1 {
        proof {
            assert(is_the_sep(text@, first as int));
            lemma_sep_unique(text@, first as int, sep_index(text@));
        }
        let action = text.substring_char(0, first);
        let argument = text.substring_char(first + 1, n);
        Some((action.to_owned(), argument.to_owned()))
    } else {
        proof {
            if has_one_sep(text@) {
                let w = sep_index(text@);
                assert(is_the_sep(text@, w));
                if count == 0 {
                    assert(text@[w] == ':');
                } else {
                    if w == first {
                        assert(text@[second as int] == ':');
                    } else {
                        assert(text@[first as int] == ':');
                    }
                }
            }
        }
        None
    }
}

/// The text is a well-formed `move` command.
pub open spec fn is_move_text(text: Seq<char>) -> bool {
    has_one_sep(text) && action_of(text) == "move"@
}

/// The text is a well-formed `turn` command.
pub open spec fn is_turn_text(text: Seq<char>) -> bool {
    has_one_sep(text) && action_of(text) == "turn"@
}

/// One parsed command, derived from a payload for the duration of a
/// single dispatch.
#[derive(Debug, PartialEq, Eq)]
pub enum Command {
    /// Apply the argument to the rules engine as a move.
    Move(String),
    /// Query whose turn it is.
    Turn,
    /// Well-formed but unrecognized: echoed back as an ordinary message.
    Other,
    /// Not exactly one `:` separator: silently discarded.
    Malformed,
}

/// Parses one payload into the command the coordinator dispatches on.
pub fn parse_command(text: &str) -> (c: Command)
    ensures
        c is Move <==> is_move_text(text@),
        c matches Command::Move(arg) ==> arg@ == argument_of(text@),
        c is Turn <==> is_turn_text(text@),
        c is Malformed <==> !has_one_sep(text@),
        c is Other <==> has_one_sep(text@) && !is_move_text(text@) && !is_turn_text(text@),
{
    proof {
        reveal_strlit("move");
        reveal_strlit("turn");
        assert("move"@ != "turn"@) by {
            assert("move"@[0] != "turn"@[0]);
        }
    }
    match split_command(text) {
        None => Command::Malformed,
        Some((action, argument)) => {
            if str_eq(action.as_str(), "move") {
                Command::Move(argument)
            } else if str_eq(action.as_str(), "turn") {
                Command::Turn
            } else {
                Command::Other
            }
        },
    }
}

} // verus!
