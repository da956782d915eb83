//! The lines of an interactive session: which end it, which are passed
//! over, and which open or close a block.

use vstd::prelude::*;
use vstd::string::*;
use crate::dict::same_text;
use crate::text::{chars_of, push_char};

verus! {

/// Whether Unicode counts the character as white space.
pub uninterp spec fn whitespace(c: char) -> bool;

/// Wraps `char::is_whitespace`: true exactly for the characters that have
/// the Unicode property `White_Space`.
#[verifier::external_body]
fn char_is_whitespace(c: char) -> (b: bool)
    ensures
        b == whitespace(c),
{
    c.is_whitespace()
}

/// The text without the white space at its end.
pub open spec fn trim_end(s: Seq<char>) -> Seq<char>
    decreases s.len(),
{
    if s.len() > 0 && whitespace(s.last()) {
        trim_end(s.drop_last())
    } else {
        s
    }
}

/// The text without the white space at its start.
pub open spec fn trim_start(s: Seq<char>) -> Seq<char>
    decreases s.len(),
{
    if s.len() > 0 && whitespace(s[0]) {
        trim_start(s.skip(1))
    } else {
        s
    }
}

/// The text without the white space at its start and at its end.
pub open spec fn trimmed(s: Seq<char>) -> Seq<char> {
    trim_start(trim_end(s))
}

/// What a line of an interactive session is.
#[derive(Debug, Clone, Copy, PartialEq, Eq, Structural)]
pub enum LineKind {
    /// The word `exit` or `quit`: the session ends.
    Quit,
    /// Nothing but white space: the line is passed over.
    Blank,
    /// A closing brace alone: the block that went on ends with this line.
    Closes,
    /// A line that ends with an opening brace: a block goes on in the
    /// next line.
    Opens,
    /// Any other line.
    Plain,
}

/// What a line is whose white space at both ends has been taken away.
pub open spec fn entry_kind_of(t: Seq<char>) -> LineKind {
    if t == "exit"@ || t == "quit"@ {
        LineKind::Quit
    } else if t.len() == 0 {
        LineKind::Blank
    } else if t == "}"@ {
        LineKind::Closes
    } else if t.last() == '{' {
        LineKind::Opens
    } else {
        LineKind::Plain
    }
}

/// What a line is.
pub open spec fn line_kind_of(line: Seq<char>) -> LineKind {
    entry_kind_of(trimmed(line))
}

/// What a line is whose white space at both ends has been taken away.
pub fn entry_kind(t: &str) -> (k: LineKind)
    ensures
        k == entry_kind_of(t@),
{
    let chars = chars_of(t);
    if same_text(t, "exit") || same_text(t, "quit") {
        LineKind::Quit
    } else if chars.len() == 0 {
        LineKind::Blank
    } else if same_text(t, "}") {
        LineKind::Closes
    } else if chars[chars.len() - 1] == '{' {
        LineKind::Opens
    } else {
        LineKind::Plain
    }
}

/// The line without the white space at its start and at its end.
pub fn trim_line(line: &str) -> (t: String)
    ensures
        t@ == trimmed(line@),
{
    let chars = chars_of(line);
    let mut end: usize = chars.len();
    proof {
        assert(chars@.take(end as int) =~= chars@);
    }
    while end > 0 && char_is_whitespace(chars[end - 1])
        invariant
            end <= chars.len(),
            trim_end(chars@) == trim_end(chars@.take(end as int)),
        decreases end,
    {
        proof {
            let s = chars@.take(end as int);
            assert(s.last() == chars@[end - 1]);
            assert(s.drop_last() =~= chars@.take(end - 1));
        }
        end -= 1;
    }
    let ghost kept = chars@.take(end as int);
    proof {
        if end > 0 {
            assert(kept.last() == chars@[end - 1]);
        }
        assert(trim_end(chars@) == kept);
        assert(kept.skip(0) =~= kept);
    }
    let mut start: usize = 0;
    while start < end && char_is_whitespace(chars[start])
        invariant
            start <= end <= chars.len(),
            kept == chars@.take(end as int),
            trim_start(kept) == trim_start(kept.skip(start as int)),
        decreases end - start,
    {
        proof {
            let s = kept.skip(start as int);
            assert(s[0] == chars@[start as int]);
            assert(s.skip(1) =~= kept.skip(start + 1));
        }
        start += 1;
    }
    proof {
        let s = kept.skip(start as int);
        if start < end {
            assert(s[0] == chars@[start as int]);
        }
        assert(trim_start(kept) == s);
    }
    let mut t = String::new();
    let mut i: usize = start;
    proof {
        assert(t@ =~= kept.skip(start as int).take(0));
    }
    while i < end
        invariant
            start <= i <= end <= chars.len(),
            kept == chars@.take(end as int),
            t@ == kept.skip(start as int).take(i - start),
        decreases end - i,
    {
        push_char(&mut t, chars[i]);
        proof {
            let s = kept.skip(start as int);
            assert(s.take(i - start + 1) =~= s.take(i - start).push(chars@[i as int]));
        }
        i += 1;
    }
    proof {
        let s = kept.skip(start as int);
        assert(s.take(end - start) =~= s);
    }
    t
}

/// What a line of an interactive session is: white space at its ends
/// does not count.
pub fn line_kind(line: &str) -> (k: LineKind)
    ensures
        k == line_kind_of(line@),
{
    let t = trim_line(line);
    entry_kind(t.as_str())
}

} // verus!
