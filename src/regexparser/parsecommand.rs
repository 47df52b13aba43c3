//! Splits a command `LOCATIONs/FIND/REPLACE/[g]` into its parts.
use vstd::prelude::*;
use crate::error::ErrorKind;
use crate::regexparser::ast::ReplaceUnparsed;
use crate::text::{chars_of, slice_of, string_of};

verus! {

/// Whether the character before position `i` leaves an escape pending, for a
/// portion that starts at `start`: a backslash toggles it, a slash keeps it,
/// anything else clears it.
pub open spec fn escaped(s: Seq<char>, start: int, i: int) -> bool
    decreases i - start,
{
    if i <= start {
        false
    } else {
        let e = escaped(s, start, i - 1);
        if s[i - 1] == '\\' {
            !e
        } else if s[i - 1] == '/' {
            e
        } else {
            false
        }
    }
}

/// The first unescaped slash at or after `i`, in a portion that starts at `start`.
pub open spec fn portion_end(s: Seq<char>, start: int, i: int) -> Option<int>
    decreases s.len() - i,
{
    if i < start || i >= s.len() {
        None
    } else if s[i] == '/' && !escaped(s, start, i) {
        Some(i)
    } else {
        portion_end(s, start, i + 1)
    }
}

pub proof fn lemma_portion_end_bounds(s: Seq<char>, start: int, i: int)
    ensures
        portion_end(s, start, i) matches Some(k) ==> i <= k < s.len() && start <= k,
    decreases s.len() - i,
{
    if i >= start && i < s.len() {
        lemma_portion_end_bounds(s, start, i + 1);
    }
}

/// The parts of a command: location (without its final `s`), pattern,
/// replacement, and whether it is global; `None` when the command is malformed.
pub open spec fn command_parts(s: Seq<char>) -> Option<(Seq<char>, Seq<char>, Seq<char>, bool)> {
    match portion_end(s, 0, 0) {
        None => None,
        Some(a) => if a == 0 || s[a - 1] != 's' {
            None
        } else {
            match portion_end(s, a + 1, a + 1) {
                None => None,
                Some(b) => match portion_end(s, b + 1, b + 1) {
                    None => None,
                    Some(c) => {
                        let rest = s.subrange(c + 1, s.len() as int);
                        if rest.len() == 0 || rest == seq!['g'] {
                            Some(
                                (
                                    s.subrange(0, a - 1),
                                    s.subrange(a + 1, b),
                                    s.subrange(b + 1, c),
                                    rest.len() == 1,
                                ),
                            )
                        } else {
                            None
                        }
                    },
                },
            }
        },
    }
}

/// Splits a command into its location, pattern, replacement and global flag.
pub fn parse(text: &str) -> (r: Result<ReplaceUnparsed, ErrorKind>)
    ensures
        match command_parts(text@) {
            Some((l, f, p, g)) => r matches Ok(u) && u.location@ == l && u.find@ == f && u.replace@
                == p && u.global == g,
            None => r == Err::<ReplaceUnparsed, ErrorKind>(ErrorKind::CommandSyntax),
        },
{
    let s = chars_of(text);
    proof {
        lemma_portion_end_bounds(s@, 0, 0);
    }
    let (location, start) = match parse_portion_chars(&s, 0) {
        Ok(x) => x,
        Err(e) => return Err(e),
    };
    if location.len() == 0 || location[location.len() - 1] != 's' {
        return Err(ErrorKind::CommandSyntax);
    }
    let ghost a = start - 1;
    proof {
        lemma_portion_end_bounds(s@, start as int, start as int);
    }
    let (find, start) = match parse_portion_chars(&s, start) {
        Ok(x) => x,
        Err(e) => return Err(e),
    };
    proof {
        lemma_portion_end_bounds(s@, start as int, start as int);
    }
    let (replace, start) = match parse_portion_chars(&s, start) {
        Ok(x) => x,
        Err(e) => return Err(e),
    };
    let rest = slice_of(&s, start, s.len());
    let global = if rest.len() == 0 {
        false
    } else if rest.len() == 1 && rest[0] == 'g' {
        assert(rest@ =~= seq!['g']);
        true
    } else {
        assert(rest@ != seq!['g']);
        return Err(ErrorKind::CommandSyntax);
    };
    let loc = slice_of(&location, 0, location.len() - 1);
    assert(loc@ =~= s@.subrange(0, start_of_find(s@) - 1));
    Ok(ReplaceUnparsed { location: string_of(&loc), find: string_of(&find), replace: string_of(&replace), global })
}

spec fn start_of_find(s: Seq<char>) -> int {
    portion_end(s, 0, 0).unwrap()
}

/// The portion of `text` from `start` up to the first unescaped slash, and the
/// position after that slash.
pub fn parse_portion(text: &str, start: usize) -> (r: Result<(String, usize), ErrorKind>)
    ensures
        match portion_end(text@, start as int, start as int) {
            Some(i) => r matches Ok((p, n)) && p@ == text@.subrange(start as int, i) && n == i + 1,
            None => r == Err::<(String, usize), ErrorKind>(ErrorKind::CommandSyntax),
        },
{
    let s = chars_of(text);
    match parse_portion_chars(&s, start) {
        Ok((p, n)) => Ok((string_of(&p), n)),
        Err(e) => Err(e),
    }
}

fn parse_portion_chars(s: &Vec<char>, start: usize) -> (r: Result<(Vec<char>, usize), ErrorKind>)
    ensures
        match portion_end(s@, start as int, start as int) {
            Some(i) => r matches Ok((p, n)) && p@ == s@.subrange(start as int, i) && n == i + 1,
            None => r == Err::<(Vec<char>, usize), ErrorKind>(ErrorKind::CommandSyntax),
        },
{
    let mut escape = false;
    let mut i: usize = start;
    while i < s.len()
        invariant
            start <= i,
            escape == escaped(s@, start as int, i as int),
            portion_end(s@, start as int, start as int) == portion_end(s@, start as int, i as int),
        decreases s@.len() - i,
    {
        let c = s[i];
        if c == '\\' {
            escape = !escape;
        } else if c == '/' {
            if !escape {
                return Ok((slice_of(s, start, i), i + 1));
            }
        } else {
            escape = false;
        }
        i = i + 1;
    }
    Err(ErrorKind::CommandSyntax)
}

} // verus!
