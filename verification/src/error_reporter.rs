//! The diagnostic renderer: given the source, an offending position and a
//! message, produces the offending line, a caret under the offending
//! column, and the message.
//!
//! The specification side is [`diag_of`]; [`error_message`] is proved to
//! return exactly that. Writing the text to the error stream and ending the
//! process stay with the caller.

use vstd::prelude::*;
use vstd::string::StrSliceExecFns;
use vstd::string::StringExecFns;

verus! {

/// The end of the line that starts at `i`: the position of the next line
/// feed, or the end of the input.
pub open spec fn line_end(s: Seq<char>, i: int) -> int
    decreases s.len() - i,
{
    if i >= s.len() {
        i
    } else if s[i] == '\n' {
        i
    } else {
        line_end(s, i + 1)
    }
}

/// The start of the line that a diagnostic at position `loc` points into,
/// scanning line by line from `pos` and counting each line's terminator
/// with it.
pub open spec fn line_start_for(s: Seq<char>, pos: int, loc: int) -> int
    decreases s.len() - pos,
{
    if pos >= s.len() {
        pos
    } else {
        let e = line_end(s, pos);
        if loc <= e + 1 {
            pos
        } else if e + 1 <= pos || e + 1 > s.len() {
            pos
        } else {
            line_start_for(s, e + 1, loc)
        }
    }
}

/// `n` spaces.
pub open spec fn spaces(n: nat) -> Seq<char>
    decreases n,
{
    if n == 0 {
        Seq::<char>::empty()
    } else {
        spaces((n - 1) as nat) + " "@
    }
}

/// The diagnostic for position `loc` of `s`: the line holding `loc`, a
/// caret under its column, and the message.
pub open spec fn diag_of(s: Seq<char>, loc: int, msg: Seq<char>) -> Seq<char> {
    let start = line_start_for(s, 0, loc);
    let end = line_end(s, start);
    s.subrange(start, end) + "\n"@ + spaces((loc - start) as nat) + "^ "@ + msg + "\n"@
}

/// A line's end never precedes its start nor passes the input's end, and is
/// determined by where the line-feed-free run stops.
proof fn lemma_line_end(s: Seq<char>, i: int, p: int)
    requires
        0 <= i <= p <= s.len(),
        forall|k: int| i <= k < p ==> #[trigger] s[k] != '\n',
        p == s.len() || s[p] == '\n',
    ensures
        line_end(s, i) == p,
    decreases p - i,
{
    if i < p {
        lemma_line_end(s, i + 1, p);
    }
}

/// The position right after a line's end.
fn scan_line_end(s: &str, i: usize) -> (r: usize)
    requires
        i <= s@.len(),
    ensures
        r == line_end(s@, i as int),
        i <= r <= s@.len(),
{
    let n = s.unicode_len();
    let mut p = i;
    while p < n && s.get_char(p) != '\n'
        invariant
            n == s@.len(),
            i <= p <= n,
            forall|k: int| i <= k < p ==> #[trigger] s@[k] != '\n',
        decreases n - p,
    {
        p += 1;
    }
    proof {
        lemma_line_end(s@, i as int, p as int);
    }
    p
}

/// Renders the diagnostic for position `error_location` of `user_input`:
/// the offending line, a caret under the offending column, and the
/// message. Columns count positions from the line's start.
pub fn error_message(user_input: &str, error_location: usize, message: &str) -> (r: String)
    requires
        error_location <= user_input@.len(),
    ensures
        r@ == diag_of(user_input@, error_location as int, message@),
{
    let n = user_input.unicode_len();
    let mut start: usize = 0;
    let mut end = scan_line_end(user_input, 0);
    while end < n && error_location > end + 1
        invariant
            n == user_input@.len(),
            error_location <= n,
            0 <= start <= n,
            start <= error_location,
            end == line_end(user_input@, start as int),
            start <= end <= n,
            line_start_for(user_input@, 0, error_location as int) == line_start_for(
                user_input@,
                start as int,
                error_location as int,
            ),
        decreases n - start,
    {
        start = end + 1;
        end = scan_line_end(user_input, start);
    }
    proof {
        assert(line_start_for(user_input@, start as int, error_location as int) == start as int);
    }
    let line = user_input.substring_char(start, end);
    let mut out = line.to_owned();
    out.append("\n");
    let column = error_location - start;
    let mut k: usize = 0;
    let ghost first_part = out@;
    while k < column
        invariant
            0 <= k <= column,
            out@ == first_part + spaces(k as nat),
        decreases column - k,
    {
        out.append(" ");
        k += 1;
    }
    out.append("^ ");
    out.append(message);
    out.append("\n");
    proof {
        assert(out@ =~= diag_of(user_input@, error_location as int, message@));
    }
    out
}

} // verus!
