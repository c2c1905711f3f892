//! How the cause of a failure is laid out for a terminal.

use crate::path::{find_in_range, first_position, to_chars};
use vstd::prelude::*;
use vstd::string::{StrSliceExecFns, StringExecFns};

verus! {

/// The lines of a text: a line ends with a line feed, and a carriage
/// return before that line feed belongs to the ending. What follows the
/// last line feed is a line unless it is empty.
pub open spec fn split_lines(s: Seq<char>) -> Seq<Seq<char>>
    decreases s.len(),
{
    match first_position(s, '\n') {
        None => if s.len() == 0 {
            Seq::empty()
        } else {
            seq![s]
        },
        Some(i) => {
            if 0 <= i < s.len() {
                seq![without_return(s.subrange(0, i))] + split_lines(
                    s.subrange(i + 1, s.len() as int),
                )
            } else {
                Seq::empty()
            }
        },
    }
}

/// A line without the carriage return at its end, if it has one.
pub open spec fn without_return(line: Seq<char>) -> Seq<char> {
    if line.len() > 0 && line.last() == '\r' {
        line.drop_last()
    } else {
        line
    }
}

/// Line `i` of a cause as it is shown: the first behind a bar, the others
/// indented beneath it.
pub open spec fn shown_line(lines: Seq<Seq<char>>, i: int) -> Seq<char> {
    if i == 0 {
        "  | "@ + lines[i]
    } else {
        "    "@ + lines[i]
    }
}

/// The lines that show one cause of a failure.
pub open spec fn cause_lines(msg: Seq<char>) -> Seq<Seq<char>> {
    Seq::new(split_lines(msg).len(), |i: int| shown_line(split_lines(msg), i))
}

/// Lays out one cause of a failure: its first line behind a bar, the
/// remaining lines indented beneath it.
pub fn error_cause_lines(msg: &str) -> (res: Vec<String>)
    ensures
        res.deep_view() == cause_lines(msg@),
{
    let chars = to_chars(msg);
    let n = chars.len();
    let mut out: Vec<String> = Vec::new();
    let mut start: usize = 0;
    let ghost mut lines: Seq<Seq<char>> = Seq::empty();
    assert(msg@.subrange(0, n as int) =~= msg@);
    assert(lines + split_lines(msg@) =~= split_lines(msg@));
    while start < n
        invariant
            start <= n,
            n == chars@.len(),
            chars@ == msg@,
            out@.len() == lines.len(),
            split_lines(msg@) == lines + split_lines(msg@.subrange(start as int, n as int)),
            forall|i: int| 0 <= i < out@.len() ==> (#[trigger] out@[i])@ == shown_line(lines, i),
        decreases n - start,
    {
        let ghost tail = msg@.subrange(start as int, n as int);
        let (stop, next) = match find_in_range(&chars, start, n, '\n') {
            Some(feed) => {
                proof {
                    let whole = msg@.subrange(start as int, feed as int);
                    assert(tail.subrange(0, feed - start) =~= whole);
                    assert(tail.subrange(feed - start + 1, tail.len() as int) =~= msg@.subrange(
                        feed + 1,
                        n as int,
                    ));
                    if feed > start {
                        assert(whole.last() == chars@[feed - 1]);
                        assert(whole.drop_last() =~= msg@.subrange(start as int, feed - 1));
                    }
                }
                if feed > start && chars[feed - 1] == '\r' {
                    (feed - 1, feed + 1)
                } else {
                    (feed, feed + 1)
                }
            },
            None => {
                proof {
                    assert(msg@.subrange(n as int, n as int) =~= Seq::<char>::empty());
                    assert(seq![tail] + split_lines(msg@.subrange(n as int, n as int)) =~= seq![tail]);
                }
                (n, n)
            },
        };
        let ghost line = msg@.subrange(start as int, stop as int);
        let ghost before = lines;
        proof {
            let rest = split_lines(msg@.subrange(next as int, n as int));
            assert(split_lines(tail) == seq![line] + rest);
            assert(before + (seq![line] + rest) =~= before.push(line) + rest);
            lines = before.push(line);
        }
        let prefix = if out.len() == 0 {
            "  | "
        } else {
            "    "
        };
        out.push(String::from_str(prefix).concat(msg.substring_char(start, stop)));
        start = next;
    }
    proof {
        assert(msg@.subrange(n as int, n as int) =~= Seq::<char>::empty());
        assert(split_lines(msg@) =~= lines);
        assert(out.deep_view() =~= cause_lines(msg@));
    }
    out
}

} // verus!
