//! The decisions behind the terminal prompts: the arguments that turn the
//! terminal's echo on and off, and the reading of a yes/no answer.

use crate::secret::{chars_to_string, str_chars};
use vstd::prelude::*;
use vstd::string::StringExecFns;

verus! {

/// The two settings of the terminal's echo that a secret prompt switches.
#[derive(Clone, Copy, PartialEq, Eq, Debug)]
pub enum SttyArgs {
    EchoOn,
    EchoOff,
}

impl SttyArgs {
    /// The arguments to pass to `stty` for this setting.
    pub fn value(&self) -> (args: Vec<String>)
        ensures
            args@.len() == 1,
            *self == SttyArgs::EchoOn ==> args@[0]@ == "echo"@,
            *self == SttyArgs::EchoOff ==> args@[0]@ == "-echo"@,
    {
        let mut args: Vec<String> = Vec::new();
        match self {
            SttyArgs::EchoOn => args.push(String::from_str("echo")),
            SttyArgs::EchoOff => args.push(String::from_str("-echo")),
        }
        args
    }
}

/// Whether an answer to "replace? [Y/n]" confirms: it is `Y` once
/// upper-cased, that is `Y` or `y`.
pub fn confirms_replace(answer: &str) -> (yes: bool)
    ensures
        yes == (answer@ == "Y"@ || answer@ == "y"@),
{
    proof {
        reveal_strlit("Y");
        reveal_strlit("y");
        assert("Y"@ =~= seq!['Y']);
        assert("y"@ =~= seq!['y']);
    }
    let chars = str_chars(answer);
    if chars.len() != 1 {
        assert(answer@.len() != 1);
        return false;
    }
    let c = chars[0];
    let yes = c == 'Y' || c == 'y';
    assert(answer@ =~= seq![c]);
    if !yes {
        assert(answer@[0] != "Y"@[0]);
        assert(answer@[0] != "y"@[0]);
    }
    yes
}

/// Whether `c` is white space in Unicode's sense (`char::is_whitespace`).
pub open spec fn is_white_space(c: char) -> bool {
    let u = c as u32;
    ||| 0x09 <= u <= 0x0d
    ||| u == 0x20
    ||| u == 0x85
    ||| u == 0xa0
    ||| u == 0x1680
    ||| 0x2000 <= u <= 0x200a
    ||| u == 0x2028
    ||| u == 0x2029
    ||| u == 0x202f
    ||| u == 0x205f
    ||| u == 0x3000
}

/// `s[start..end]` is `s` without its leading and trailing white space.
pub open spec fn trims_to(s: Seq<char>, start: int, end: int) -> bool {
    &&& 0 <= start <= end <= s.len()
    &&& forall|i: int| 0 <= i < start ==> is_white_space(#[trigger] s[i])
    &&& forall|i: int| end <= i < s.len() ==> is_white_space(#[trigger] s[i])
    &&& start < end ==> !is_white_space(s[start]) && !is_white_space(s[end - 1])
}

/// Whether `c` is white space.
fn white_space(c: char) -> (ws: bool)
    ensures
        ws == is_white_space(c),
{
    let u = c as u32;
    (0x09 <= u && u <= 0x0d) || u == 0x20 || u == 0x85 || u == 0xa0 || u == 0x1680 || (0x2000 <= u
        && u <= 0x200a) || u == 0x2028 || u == 0x2029 || u == 0x202f || u == 0x205f || u == 0x3000
}

/// A line read from the terminal without its leading and trailing white
/// space (the line break among it).
pub fn trim_reply(line: &str) -> (reply: String)
    ensures
        exists|start: int, end: int|
            trims_to(line@, start, end) && reply@ == line@.subrange(start, end),
{
    let mut chars = str_chars(line);
    let n = chars.len();
    let mut start: usize = 0;
    while start < n && white_space(chars[start])
        invariant
            start <= n,
            n == chars@.len(),
            forall|i: int| 0 <= i < start ==> is_white_space(#[trigger] chars@[i]),
        decreases n - start,
    {
        start = start + 1;
    }
    let mut end: usize = n;
    while end > start && white_space(chars[end - 1])
        invariant
            start <= end <= n,
            n == chars@.len(),
            forall|i: int| end <= i < n ==> is_white_space(#[trigger] chars@[i]),
        decreases end,
    {
        end = end - 1;
    }
    let mut kept: Vec<char> = Vec::new();
    let mut i = start;
    while i < end
        invariant
            start <= i <= end <= n,
            n == chars@.len(),
            kept@ == chars@.subrange(start as int, i as int),
        decreases end - i,
    {
        kept.push(chars[i]);
        assert(kept@ =~= chars@.subrange(start as int, i + 1));
        i = i + 1;
    }
    assert(trims_to(line@, start as int, end as int));
    chars_to_string(kept)
}

} // verus!
