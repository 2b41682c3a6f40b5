//! The source text, and which texts the parser can take.
//!
//! The parser keeps the number of a code, in tenths, in 32 bits. Some numbers are
//! small enough to be read and still too large for that; a text with such a number
//! behind a G, M or T is not handed to it. A letter that stands where the number of
//! another one should stand is taken for a mistake, and what follows it is no number of
//! a code.
use vstd::prelude::*;

verus! {

/// Where a piece of the text stands.
pub enum Region {
    Code,
    /// Behind a semicolon.
    LineComment,
    /// Within so many parentheses.
    Parentheses(nat),
}

/// The region behind a character.
pub open spec fn region_behind(region: Region, c: char) -> Region {
    match region {
        Region::Code => if c == ';' {
            Region::LineComment
        } else if c == '(' {
            Region::Parentheses(1)
        } else {
            Region::Code
        },
        Region::LineComment => if c == '\n' {
            Region::Code
        } else {
            Region::LineComment
        },
        Region::Parentheses(depth) => if c == '(' {
            Region::Parentheses(depth + 1)
        } else if c == ')' && depth <= 1 {
            Region::Code
        } else if c == ')' {
            Region::Parentheses((depth - 1) as nat)
        } else {
            Region::Parentheses(depth)
        },
    }
}

/// The region that the character at `i` stands in.
pub open spec fn region_at(src: Seq<char>, i: int) -> Region
    decreases i,
{
    if i <= 0 {
        Region::Code
    } else {
        region_behind(region_at(src, i - 1), src[i - 1])
    }
}

/// A letter that a code number belongs to.
pub open spec fn is_code_letter(c: char) -> bool {
    c == 'G' || c == 'g' || c == 'M' || c == 'm' || c == 'T' || c == 't'
}

/// A letter behind which the parser wants a number: whatever comes next is taken for it.
pub open spec fn wants_number(c: char) -> bool {
    is_code_letter(c) || c == 'N' || c == 'n' || c == 'O' || c == 'o'
}

/// What comes next at `i` is taken for the number of a letter in front of it.
pub open spec fn awaited(src: Seq<char>, i: int) -> bool
    decreases i,
{
    if i <= 0 || !(region_at(src, i - 1) is Code) {
        false
    } else if is_blank(src[i - 1]) {
        awaited(src, i - 1)
    } else {
        wants_number(src[i - 1]) && !awaited(src, i - 1)
    }
}

pub open spec fn is_blank(c: char) -> bool {
    c == ' ' || c == '\t' || c == '\r'
}

pub open spec fn is_digit(c: char) -> bool {
    '0' <= c <= '9'
}

/// What a sequence of digits reads as.
pub open spec fn decimal(digits: Seq<char>) -> nat
    decreases digits.len(),
{
    if digits.len() == 0 {
        0
    } else {
        10 * decimal(digits.drop_last()) + (digits.last() as nat - '0' as nat) as nat
    }
}

/// The digits from `j` to `k` are the number of the code whose letter is at `i`.
pub open spec fn is_code_number(src: Seq<char>, i: int, j: int, k: int) -> bool {
    &&& 0 <= i < j < k <= src.len()
    &&& region_at(src, i) is Code
    &&& is_code_letter(src[i])
    &&& !awaited(src, i)
    &&& forall|b: int| i < b < j ==> is_blank(#[trigger] src[b])
    &&& forall|d: int| j <= d < k ==> is_digit(#[trigger] src[d])
    &&& k < src.len() ==> !is_digit(src[k])
}

/// The end of the digits that start at `k`.
pub open spec fn digits_end(src: Seq<char>, k: int) -> int
    decreases src.len() - k,
{
    if 0 <= k < src.len() && is_digit(src[k]) {
        digits_end(src, k + 1)
    } else {
        k
    }
}

/// What stands behind the point of a number whose whole part ends at `k`: zero where
/// there is no point, and nothing where no digits follow it.
pub open spec fn tenths(src: Seq<char>, k: int) -> Option<nat> {
    if 0 <= k < src.len() && src[k] == '.' {
        let end = digits_end(src, k + 1);
        if end <= k + 1 {
            None
        } else {
            Some(decimal(src.subrange(k + 1, end)))
        }
    } else {
        Some(0)
    }
}

/// The parser can take the text: every code number either has room, in tenths, in 32
/// bits, or cannot be read at all, and no more than 32 bits are needed to count
/// parentheses.
pub open spec fn readable(src: Seq<char>) -> bool {
    &&& src.len() <= u32::MAX
    &&& forall|i: int, j: int, k: int| #[trigger]
        is_code_number(src, i, j, k) ==> manageable(
            decimal(src.subrange(j, k)),
            tenths(src, k),
        )
}

/// A code number that can be read, whole part and one digit behind the point, has room.
pub open spec fn manageable(number: nat, tenths: Option<nat>) -> bool {
    number <= u32::MAX && (tenths matches Some(t) && t <= 9) ==> 10 * number + tenths->0
        <= u32::MAX
}

/// The characters of a text.
fn characters(src: &str) -> (text: Vec<char>)
    ensures
        text@ == src@,
{
    let mut text: Vec<char> = Vec::new();
    for c in it: src.chars()
        invariant
            it.seq() == src@,
            text@ == it.seq().take(it.index()),
    {
        text.push(c);
    }
    text
}

/// What stands behind the point of a number whose whole part ends at `k`; ten, where it
/// is more than nine.
fn tenths_behind(text: &Vec<char>, k: usize) -> (digit: Option<u64>)
    requires
        k <= text.len(),
    ensures
        digit is Some == tenths(text@, k as int) is Some,
        digit matches Some(d) ==> d <= 10 && d == if tenths(text@, k as int)->0 > 10 {
            10
        } else {
            tenths(text@, k as int)->0
        },
{
    if k == text.len() || text[k] != '.' {
        return Some(0);
    }
    let mut end: usize = k + 1;
    let mut digit: u64 = 0;
    proof {
        assert(text@.subrange(k + 1, k + 1) == Seq::<char>::empty());
    }
    while end < text.len() && '0' <= text[end] && text[end] <= '9'
        invariant
            k < end <= text.len(),
            digits_end(text@, k + 1) == digits_end(text@, end as int),
            digit <= 10,
            digit == if decimal(text@.subrange(k + 1, end as int)) > 10 {
                10
            } else {
                decimal(text@.subrange(k + 1, end as int))
            },
        decreases text.len() - end,
    {
        assert(text@.subrange(k + 1, end + 1).drop_last() == text@.subrange(k + 1, end as int));
        let next: u64 = 10 * digit + (text[end] as u32 as u64 - '0' as u32 as u64);
        digit = if next > 10 { 10 } else { next };
        end = end + 1;
    }
    if end == k + 1 {
        None
    } else {
        Some(digit)
    }
}

/// Whether the parser can take the number of the code whose letter is at `i`.
fn code_number_is_manageable(text: &Vec<char>, i: usize) -> (r: bool)
    requires
        i < text.len(),
        region_at(text@, i as int) is Code,
        is_code_letter(text[i as int]),
        !awaited(text@, i as int),
    ensures
        r == forall|j: int, k: int| #[trigger]
            is_code_number(text@, i as int, j, k) ==> manageable(
                decimal(text@.subrange(j, k)),
                tenths(text@, k),
            ),
{
    let mut j: usize = i + 1;
    while j < text.len() && (text[j] == ' ' || text[j] == '\t' || text[j] == '\r')
        invariant
            i < j <= text.len(),
            forall|b: int| i < b < j ==> is_blank(#[trigger] text[b]),
        decreases text.len() - j,
    {
        j = j + 1;
    }
    let mut k: usize = j;
    let mut number: u64 = 0;
    while k < text.len() && '0' <= text[k] && text[k] <= '9'
        invariant
            j <= k <= text.len(),
            forall|d: int| j <= d < k ==> is_digit(#[trigger] text[d]),
            number <= 0x1_0000_0000,
            number == decimal(text@.subrange(j as int, k as int)) || (number == 0x1_0000_0000
                && decimal(text@.subrange(j as int, k as int)) >= 0x1_0000_0000),
        decreases text.len() - k,
    {
        let ghost digits = text@.subrange(j as int, k as int);
        assert(text@.subrange(j as int, k + 1).drop_last() == digits);
        let next: u64 = 10 * number + (text[k] as u32 as u64 - '0' as u32 as u64);
        number = if next > 0x1_0000_0000 { 0x1_0000_0000 } else { next };
        k = k + 1;
    }
    let ghost value = decimal(text@.subrange(j as int, k as int));
    let digit = tenths_behind(text, k);
    let r = j == k || number > u32::MAX as u64 || match digit {
        Some(digit) => digit > 9 || 10 * number + digit <= u32::MAX as u64,
        None => true,
    };
    proof {
        assert forall|b: int, d: int| is_code_number(text@, i as int, b, d) implies b == j && d
            == k by {
            assert(is_digit(text@[b]) && !is_blank(text@[b]));
            if b < j {
                assert(is_blank(text@[b]));
            }
            if j < b {
                assert(is_blank(text@[j as int]));
            }
            if d < k {
                assert(is_digit(text@[d]));
            }
            if k < d {
                assert(is_digit(text@[k as int]));
            }
        }
        if j < k {
            assert(is_code_number(text@, i as int, j as int, k as int));
            assert(r == manageable(value, tenths(text@, k as int)));
        }
    }
    r
}

/// Whether the parser can take the text.
pub fn is_readable(src: &str) -> (r: bool)
    ensures
        r == readable(src@),
{
    let text = characters(src);
    if text.len() > u32::MAX as usize {
        return false;
    }
    let mut line_comment = false;
    let mut depth: usize = 0;
    let mut waits = false;
    let mut i: usize = 0;
    while i < text.len()
        invariant
            text@ == src@,
            i <= text.len() <= u32::MAX,
            depth <= i,
            region_at(text@, i as int) == if line_comment {
                Region::LineComment
            } else if depth == 0 {
                Region::Code
            } else {
                Region::Parentheses(depth as nat)
            },
            line_comment ==> depth == 0,
            waits == awaited(text@, i as int),
            forall|a: int, j: int, k: int|
                a < i && #[trigger] is_code_number(text@, a, j, k) ==> manageable(
                    decimal(text@.subrange(j, k)),
                    tenths(text@, k),
                ),
        decreases text.len() - i,
    {
        let c = text[i];
        if line_comment {
            line_comment = c != '\n';
            waits = false;
        } else if depth > 0 {
            waits = false;
            if c == '(' {
                depth = depth + 1;
            } else if c == ')' {
                depth = depth - 1;
            }
        } else if c == ';' {
            line_comment = true;
            waits = false;
        } else if c == '(' {
            depth = 1;
            waits = false;
        } else if c == 'G' || c == 'g' || c == 'M' || c == 'm' || c == 'T' || c == 't' {
            if !waits && !code_number_is_manageable(&text, i) {
                return false;
            }
            waits = !waits;
        } else if c == 'N' || c == 'n' || c == 'O' || c == 'o' {
            waits = !waits;
        } else if c != ' ' && c != '\t' && c != '\r' {
            waits = false;
        }
        i = i + 1;
    }
    true
}

} // verus!
