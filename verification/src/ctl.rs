//! The words a control client sends: one text command out, the answer printed.

use vstd::prelude::*;
use vstd::string::*;

use crate::text::{chars_of, is_white_space, str_eq};

verus! {

/// Where the daemon listens, unless it was told otherwise.
pub const DEFAULT_SOCKET: &'static str = "/run/lorica/control.sock";

/// The environment variable that moves the socket.
pub const SOCKET_VAR: &'static str = "LORICA_CONTROL_SOCKET";

/// Every word the daemon answers. Both the dispatch and the usage line.
pub const COMMANDS: [&'static str; 8] = [
    "status",
    "tiers",
    "rules",
    "arm",
    "disarm",
    "reload",
    "attach",
    "detach",
];

/// The one command with an operand.
pub const WITH_OPERAND: &'static str = "attach";

/// What the arguments ask for.
pub enum Request {
    /// Send this line.
    Send(String),
    /// The one command with an operand was given without one.
    NeedsOperand,
    /// Nothing the daemon answers.
    Usage,
}

/// Whether a word is one of the commands.
pub open spec fn is_command(word: Seq<char>) -> bool {
    exists|i: int| 0 <= i < COMMANDS@.len() && (#[trigger] COMMANDS@[i])@ == word
}

fn known(word: &str) -> (found: bool)
    ensures
        found == is_command(word@),
{
    let mut i: usize = 0;
    while i < 8
        invariant
            i <= 8,
            forall|j: int| 0 <= j < i ==> (#[trigger] COMMANDS@[j])@ != word@,
        decreases 8 - i,
    {
        if str_eq(COMMANDS[i], word) {
            assert(COMMANDS@[i as int]@ == word@);
            return true;
        }
        i += 1;
    }
    false
}

/// What a line of words asks for: the line to send, or none, with whether an operand is what it
/// lacks.
pub open spec fn line_of(words: Seq<Seq<char>>) -> (Option<Seq<char>>, bool) {
    if words.len() == 0 {
        (None, false)
    } else if words[0] == WITH_OPERAND@ {
        if words.len() > 1 {
            (Some(words[0] + " "@ + words[1]), false)
        } else {
            (None, true)
        }
    } else if is_command(words[0]) {
        (Some(words[0]), false)
    } else {
        (None, false)
    }
}

/// What the words of some arguments are.
pub open spec fn words_of(args: Seq<String>) -> Seq<Seq<char>> {
    args.map_values(|arg: String| arg@)
}

/// What is sent begins with the command and holds nothing but it and, for the one that takes one,
/// its operand behind a space: what follows is dropped, and a word that is no command is never
/// sent.
pub proof fn what_is_sent_is_the_command_and_its_operand(words: Seq<Seq<char>>)
    ensures
        line_of(words).0 matches Some(line) ==> words.len() > 0 && line.len() >= words[0].len()
            && line.take(words[0].len() as int) == words[0],
        words.len() > 0 && words[0] != "attach"@ && (line_of(words).0 is Some) ==> line_of(words).0
            == Some(words[0]),
        words.len() > 1 && words[0] == "attach"@ ==> (line_of(words).0 matches Some(line) && line.len()
            == words[0].len() + 1 + words[1].len() && line[words[0].len() as int] == ' '
            && line.skip(words[0].len() as int + 1) == words[1]),
        words.len() == 1 && words[0] == "attach"@ <==> line_of(words).1,
        words.len() > 2 ==> line_of(words) == line_of(words.take(2)),
        words.len() > 0 && words[0] != "attach"@ && !is_command(words[0]) ==> line_of(words).0 is None,
{
    reveal_strlit(" ");
    if words.len() > 0 {
        assert(words[0].take(words[0].len() as int) =~= words[0]);
        if words.len() > 1 {
            let line = words[0] + " "@ + words[1];
            assert(line.take(words[0].len() as int) =~= words[0]);
            assert(line.skip(words[0].len() as int + 1) =~= words[1]);
        }
    }
}

/// What the arguments ask for. The command with an operand is refused here without one, rather
/// than sent; what follows the words that count is ignored.
pub fn command(args: &[String]) -> (request: Request)
    ensures
        match request {
            Request::Send(line) => line_of(words_of(args@)).0 == Some(line@),
            Request::NeedsOperand => line_of(words_of(args@)) == (None::<Seq<char>>, true),
            Request::Usage => line_of(words_of(args@)) == (None::<Seq<char>>, false),
        },
        match request {
            Request::Send(line) => args@.len() > 0 && (if args@[0]@ == WITH_OPERAND@ {
                args@.len() > 1 && line@ == args@[0]@ + " "@ + args@[1]@
            } else {
                is_command(args@[0]@) && line@ == args@[0]@
            }),
            Request::NeedsOperand => args@.len() == 1 && args@[0]@ == WITH_OPERAND@,
            Request::Usage => args@.len() == 0 || (args@[0]@ != WITH_OPERAND@ && !is_command(
                args@[0]@,
            )),
        },
{
    if args.len() == 0 {
        return Request::Usage;
    }
    let word: &str = args[0].as_str();
    if str_eq(word, WITH_OPERAND) {
        if args.len() < 2 {
            return Request::NeedsOperand;
        }
        let mut line: String = word.to_owned();
        line.append(" ");
        line.append(args[1].as_str());
        Request::Send(line)
    } else if known(word) {
        Request::Send(word.to_owned())
    } else {
        Request::Usage
    }
}

/// The commands of the table from `from` on, with a bar before each but the first.
pub open spec fn joined(from: int) -> Seq<char>
    decreases COMMANDS@.len() - from,
{
    if from >= COMMANDS@.len() {
        Seq::empty()
    } else if from == 0 {
        COMMANDS@[0]@ + joined(1)
    } else {
        "|"@ + COMMANDS@[from]@ + joined(from + 1)
    }
}

/// The first line of the usage text: every command.
pub fn usage() -> (line: String)
    ensures
        line@ == "usage: lorica-ctl "@ + joined(0),
{
    let mut line: String = "usage: lorica-ctl ".to_owned();
    let ghost head = "usage: lorica-ctl "@;
    let mut i: usize = 0;
    while i < 8
        invariant
            i <= 8,
            head + joined(0) == line@ + joined(i as int),
        decreases 8 - i,
    {
        let ghost before = line@;
        if i > 0 {
            line.append("|");
        }
        line.append(COMMANDS[i]);
        assert(before + joined(i as int) =~= line@ + joined(i + 1));
        i += 1;
    }
    assert(line@ + joined(8) =~= line@);
    line
}

/// An answer as it is printed.
pub open spec fn as_printed(answer: Seq<char>) -> Seq<char> {
    crate::text::trimmed_end(answer)
}

/// An answer is printed from its first character on, the white space it begins with included, to
/// its last that is not white space.
pub proof fn an_answer_keeps_its_beginning(answer: Seq<char>, len: int)
    requires
        0 <= len <= answer.len(),
        forall|k: int| len <= k < answer.len() ==> crate::text::white_space(#[trigger] answer[k]),
        len > 0 ==> !crate::text::white_space(answer[len - 1]),
    ensures
        as_printed(answer) == answer.take(len),
{
    crate::text::a_text_trimmed_at_its_end_is_its_beginning(answer, len);
}

/// An answer as it is printed: without the white space it ends with.
pub fn printed(answer: &str) -> (text: &str)
    ensures
        text@ == as_printed(answer@),
        text@ == crate::text::trimmed_end(answer@),
{
    let chars: Vec<char> = chars_of(answer);
    let mut end: usize = chars.len();
    assert(chars@.take(end as int) =~= chars@);
    while end > 0 && is_white_space(chars[end - 1])
        invariant
            chars@ == answer@,
            end <= chars@.len(),
            crate::text::trimmed_end(answer@) == crate::text::trimmed_end(chars@.take(end as int)),
        decreases end,
    {
        assert(chars@.take(end as int).drop_last() =~= chars@.take(end - 1));
        end -= 1;
    }
    assert(chars@.take(end as int) =~= answer@.subrange(0, end as int));
    answer.substring_char(0, end)
}

} // verus!
