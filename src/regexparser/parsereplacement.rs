//! Parses a replacement template into literals and back-references.
use vstd::prelude::*;
use crate::error::ErrorKind;
use crate::regexparser::ast::{ReplaceItem, Replacement};
use crate::text::{chars_of, decimal, is_digit, slice_of, string_of};

verus! {

/// A template item seen as plain values.
pub enum ItemView {
    Literal(Seq<char>),
    BackRef(nat),
}

pub open spec fn item_view(i: ReplaceItem) -> ItemView {
    match i {
        ReplaceItem::String(s) => ItemView::Literal(s@),
        ReplaceItem::BackRef(n) => ItemView::BackRef(n as nat),
    }
}

/// The end of the run of decimal digits that starts at `i`.
pub open spec fn digits_end(s: Seq<char>, i: int) -> int
    decreases s.len() - i,
{
    if i < 0 || i >= s.len() || !is_digit(s[i]) {
        i
    } else {
        digits_end(s, i + 1)
    }
}

/// The first backslash at or after `i`, if any.
pub open spec fn next_backslash(s: Seq<char>, i: int) -> Option<int>
    decreases s.len() - i,
{
    if i < 0 || i >= s.len() {
        None
    } else if s[i] == '\\' {
        Some(i)
    } else {
        next_backslash(s, i + 1)
    }
}

/// The literal from `start` up to the first backslash at or after `from`, and
/// where the next item starts (one past the end when no backslash follows).
pub open spec fn literal_from(s: Seq<char>, start: int, from: int) -> (ItemView, int) {
    match next_backslash(s, from) {
        Some(k) => (ItemView::Literal(s.subrange(start, k)), k),
        None => (ItemView::Literal(s.subrange(start, s.len() as int)), s.len() + 1int),
    }
}

/// The item that starts at `start`: a backslash followed by digits is a
/// back-reference (an error when its number exceeds `i32::MAX`); a backslash
/// followed by something else starts a literal that takes that character too;
/// any other character starts a literal. A literal runs up to the next backslash.
pub open spec fn item_at(s: Seq<char>, start: int) -> Option<(ItemView, int)> {
    if s[start] == '\\' {
        let j = digits_end(s, start + 1);
        if j > start + 1 {
            match decimal(s.subrange(start + 1, j)) {
                Some(n) => if n <= i32::MAX {
                    Some((ItemView::BackRef(n), j))
                } else {
                    None
                },
                None => None,
            }
        } else {
            Some(literal_from(s, start, start + 2))
        }
    } else {
        Some(literal_from(s, start, start + 1))
    }
}

/// The items of the template from position `i` on, or `None` when one is malformed.
pub open spec fn items_from(s: Seq<char>, i: int) -> Option<Seq<ItemView>>
    decreases s.len() + 1 - i,
{
    if i < 0 || i >= s.len() {
        Some(Seq::empty())
    } else {
        match item_at(s, i) {
            None => None,
            Some((it, n)) => if n <= i || n > s.len() + 1 {
                None
            } else {
                match items_from(s, n) {
                    Some(rest) => Some(seq![it] + rest),
                    None => None,
                }
            },
        }
    }
}

/// Parses a replacement template.
pub fn parse(text: &str) -> (r: Result<Replacement, ErrorKind>)
    requires
        text@.len() < usize::MAX,
    ensures
        match items_from(text@, 0) {
            Some(items) => r matches Ok(rep) && rep.replacements@.map_values(
                |i: ReplaceItem| item_view(i),
            ) == items,
            None => r == Err::<Replacement, ErrorKind>(ErrorKind::ReplacementSyntax),
        },
{
    let s = chars_of(text);
    let mut v: Vec<ReplaceItem> = Vec::new();
    let mut i: usize = 0;
    while i < s.len()
        invariant
            s@ == text@,
            s@.len() < usize::MAX,
            i <= s@.len() + 1,
            items_from(s@, 0) == match items_from(s@, i as int) {
                Some(rest) => Some(v@.map_values(|i: ReplaceItem| item_view(i)) + rest),
                None => None::<Seq<ItemView>>,
            },
        decreases s@.len() + 1 - i,
    {
        let (p, n) = match parse_item(&s, i) {
            Ok(x) => x,
            Err(e) => return Err(e),
        };
        let ghost before = v@.map_values(|i: ReplaceItem| item_view(i));
        v.push(p);
        proof {
            assert(v@.map_values(|i: ReplaceItem| item_view(i)) =~= before.push(item_view(p)));
            match items_from(s@, n as int) {
                Some(rest) => {
                    assert(before + (seq![item_view(p)] + rest) =~= before.push(item_view(p)) + rest);
                },
                None => {},
            }
        }
        i = n;
    }
    assert(v@.map_values(|i: ReplaceItem| item_view(i)) + Seq::<ItemView>::empty() =~= v@.map_values(
        |i: ReplaceItem| item_view(i),
    ));
    Ok(Replacement { replacements: v })
}

/// The first backslash at or after `from`, if any.
fn find_backslash(s: &Vec<char>, from: usize) -> (r: Option<usize>)
    ensures
        match next_backslash(s@, from as int) {
            Some(k) => r == Some(k as usize),
            None => r is None,
        },
{
    let mut k = from;
    while k < s.len()
        invariant
            from <= k,
            next_backslash(s@, from as int) == next_backslash(s@, k as int),
        decreases s@.len() - k,
    {
        if s[k] == '\\' {
            return Some(k);
        }
        k = k + 1;
    }
    None
}

fn literal(s: &Vec<char>, start: usize, from: usize) -> (r: (ReplaceItem, usize))
    requires
        start < s@.len(),
        s@.len() < usize::MAX,
        start < from,
    ensures
        item_view(r.0) == literal_from(s@, start as int, from as int).0,
        r.1 == literal_from(s@, start as int, from as int).1,
{
    proof {
        lemma_backslash_bounds(s@, from as int);
    }
    match find_backslash(s, from) {
        Some(k) => {
            assert(from <= k < s@.len());
            (ReplaceItem::String(string_of(&slice_of(s, start, k))), k)
        },
        None => (ReplaceItem::String(string_of(&slice_of(s, start, s.len()))), s.len() + 1),
    }
}

proof fn lemma_backslash_bounds(s: Seq<char>, i: int)
    ensures
        next_backslash(s, i) matches Some(k) ==> i <= k < s.len(),
    decreases s.len() - i,
{
    if 0 <= i < s.len() {
        lemma_backslash_bounds(s, i + 1);
    }
}

proof fn lemma_digits_end(s: Seq<char>, i: int)
    requires
        0 <= i,
    ensures
        i <= digits_end(s, i),
        digits_end(s, i) <= s.len() || digits_end(s, i) == i,
        forall|k: int| i <= k < digits_end(s, i) ==> is_digit(#[trigger] s[k]),
    decreases s.len() - i,
{
    if i < s.len() && is_digit(s[i]) {
        lemma_digits_end(s, i + 1);
    }
}

/// The item that starts at `start`, and where the next one starts.
fn parse_item(s: &Vec<char>, start: usize) -> (r: Result<(ReplaceItem, usize), ErrorKind>)
    requires
        start < s@.len(),
        s@.len() < usize::MAX,
    ensures
        match item_at(s@, start as int) {
            Some((it, n)) => r matches Ok((p, m)) && item_view(p) == it && m == n && n > start && n
                <= s@.len() + 1,
            None => r == Err::<(ReplaceItem, usize), ErrorKind>(ErrorKind::ReplacementSyntax),
        },
{
    if s[start] == '\\' {
        let mut j = start + 1;
        while j < s.len() && '0' <= s[j] && s[j] <= '9'
            invariant
                start + 1 <= j <= s@.len(),
                digits_end(s@, start + 1) == digits_end(s@, j as int),
            decreases s@.len() - j,
        {
            j = j + 1;
        }
        proof {
            lemma_digits_end(s@, start + 1);
        }
        if j > start + 1 {
            let digits = slice_of(s, start + 1, j);
            match crate::text::parse_decimal(&digits) {
                Some(n) => {
                    if n <= 2147483647 {
                        return Ok((ReplaceItem::BackRef(n), j));
                    }
                    return Err(ErrorKind::ReplacementSyntax);
                },
                None => {
                    return Err(ErrorKind::ReplacementSyntax);
                },
            }
        }
        let r = literal(s, start, start + 2);
        proof {
            lemma_backslash_bounds(s@, start + 2);
        }
        Ok(r)
    } else {
        let r = literal(s, start, start + 1);
        proof {
            lemma_backslash_bounds(s@, start + 1);
        }
        Ok(r)
    }
}

} // verus!
