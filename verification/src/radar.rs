//! The description of a radar to bring up, and the configuration of a set
//! of radars.

use vstd::prelude::*;
use vstd::string::StrSliceExecFns;
use crate::ports::Model;

verus! {

/// Where a radar stands; this configuration format carries no placement.
#[derive(Debug, Clone, Copy, PartialEq, Eq, Structural)]
pub struct Transform {}

/// A radar: the serial number of its USB device, its model, the path of the
/// file of commands that configures it, and its placement.
#[derive(Debug, Clone, PartialEq, Eq)]
pub struct RadarDescriptor {
    pub serial: String,
    pub model: Model,
    pub config: String,
    pub transform: Transform,
}

/// The radars to run.
#[derive(Debug, Clone, PartialEq, Eq)]
pub struct RadarConfiguration {
    pub descriptors: Vec<RadarDescriptor>,
}

/// A line without the carriage return that ended it, if any.
pub open spec fn strip_cr(line: Seq<char>) -> Seq<char> {
    if line.len() > 0 && line.last() == '\r' {
        line.drop_last()
    } else {
        line
    }
}

/// The lines of `s`, when `cur` has been read of the current line.
pub open spec fn lines_from(s: Seq<char>, cur: Seq<char>) -> Seq<Seq<char>>
    decreases s.len(),
{
    if s.len() == 0 {
        if cur.len() == 0 {
            Seq::empty()
        } else {
            seq![cur]
        }
    } else if s[0] == '\n' {
        seq![strip_cr(cur)] + lines_from(s.drop_first(), Seq::empty())
    } else {
        lines_from(s.drop_first(), cur.push(s[0]))
    }
}

/// The lines of a text, as `str::lines` gives them: split at each newline,
/// a carriage return before the newline dropped, and no empty line after a
/// final newline.
pub open spec fn spec_lines(s: Seq<char>) -> Seq<Seq<char>> {
    lines_from(s, Seq::empty())
}

/// The lines of a command file, one command each.
pub fn command_lines(command: &str) -> (r: Vec<String>)
    ensures
        r@.map_values(|l: String| l@) == spec_lines(command@),
{
    let n = command.unicode_len();
    let ghost s = command@;
    let mut lines: Vec<String> = Vec::new();
    let mut pos: usize = 0;
    let mut i: usize = 0;
    proof {
        assert(s.subrange(0, n as int) =~= s);
        assert(s.subrange(0, 0) =~= Seq::<char>::empty());
        assert(lines@.map_values(|l: String| l@) + spec_lines(s) =~= spec_lines(s));
    }
    while i < n
        invariant
            n == s.len(),
            s == command@,
            0 <= pos <= i <= n,
            spec_lines(s) == lines@.map_values(|l: String| l@) + lines_from(
                s.subrange(i as int, n as int),
                s.subrange(pos as int, i as int),
            ),
        decreases n - i,
    {
        let ghost rest = s.subrange(i as int, n as int);
        let ghost cur = s.subrange(pos as int, i as int);
        let ghost before = lines@.map_values(|l: String| l@);
        assert(rest.drop_first() =~= s.subrange(i + 1, n as int));
        assert(rest[0] == s[i as int]);
        let c = command.get_char(i);
        if c == '\n' {
            let end = if i > pos && command.get_char(i - 1) == '\r' {
                i - 1
            } else {
                i
            };
            let line = command.substring_char(pos, end).to_owned();
            lines.push(line);
            proof {
                assert(s.subrange(pos as int, end as int) =~= strip_cr(cur));
                assert(lines@.map_values(|l: String| l@) =~= before.push(strip_cr(cur)));
                assert(s.subrange(i + 1, i + 1) =~= Seq::<char>::empty());
                assert(before + (seq![strip_cr(cur)] + lines_from(rest.drop_first(), Seq::empty())) =~= before.push(
                    strip_cr(cur),
                ) + lines_from(rest.drop_first(), Seq::empty()));
            }
            pos = i + 1;
        } else {
            proof {
                assert(cur.push(s[i as int]) =~= s.subrange(pos as int, i + 1));
            }
        }
        i += 1;
    }
    if pos < n {
        let ghost before = lines@.map_values(|l: String| l@);
        let line = command.substring_char(pos, n).to_owned();
        lines.push(line);
        proof {
            assert(lines@.map_values(|l: String| l@) =~= before.push(s.subrange(pos as int, n as int)));
            assert(s.subrange(n as int, n as int) =~= Seq::<char>::empty());
        }
    } else {
        proof {
            assert(s.subrange(n as int, n as int) =~= Seq::<char>::empty());
            assert(s.subrange(pos as int, n as int) =~= Seq::<char>::empty());
        }
    }
    proof {
        assert(lines@.map_values(|l: String| l@) + Seq::<Seq<char>>::empty() =~= lines@.map_values(|l: String| l@));
    }
    lines
}

} // verus!
