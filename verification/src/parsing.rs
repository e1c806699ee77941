//! Text helpers shared by the puzzle parsers: character extraction,
//! splitting on a separator, line splitting, and decimal numbers.
//!
//! Everything is specified against sequences of characters, so that each
//! puzzle's parser can state exactly which inputs it accepts and what value
//! it reads from them.

use vstd::prelude::*;

verus! {

/// `c` is a decimal digit.
pub open spec fn is_digit(c: char) -> bool {
    '0' <= c && c <= '9'
}

/// Numeric value of a digit character.
pub open spec fn digit_val(c: char) -> nat {
    (c as nat - 48) as nat
}

/// Every character of `s` is a decimal digit.
pub open spec fn all_digits(s: Seq<char>) -> bool {
    forall|i: int| 0 <= i < s.len() ==> is_digit(#[trigger] s[i])
}

/// The number written in decimal by `s`, most significant digit first.
pub open spec fn digits_val(s: Seq<char>) -> nat
    decreases s.len(),
{
    if s.len() == 0 {
        0
    } else {
        10 * digits_val(s.drop_last()) + digit_val(s.last())
    }
}

/// The decimal writing of `n`, without leading zeros.
pub open spec fn digits_of(n: nat) -> Seq<char>
    decreases n,
{
    if n < 10 {
        seq![((48 + n) as u8) as char]
    } else {
        digits_of(n / 10).push(((48 + n % 10) as u8) as char)
    }
}

/// The characters of `s`, one by one.
pub fn chars_of(s: &str) -> (v: Vec<char>)
    ensures
        v@ == s@,
{
    let n = s.unicode_len();
    let mut v: Vec<char> = Vec::new();
    let mut i: usize = 0;
    while i < n
        invariant
            i <= n == s@.len(),
            v@ == s@.take(i as int),
        decreases n - i,
    {
        let c = s.get_char(i);
        v.push(c);
        proof {
            assert(s@.take(i + 1) =~= s@.take(i as int).push(s@[i as int]));
        }
        i = i + 1;
    }
    proof {
        assert(s@.take(n as int) =~= s@);
    }
    v
}

/// Reads `v` as a decimal `u64`.
///
/// Succeeds exactly on non-empty all-digit inputs whose value fits.
pub fn parse_u64(v: &Vec<char>) -> (r: Option<u64>)
    ensures
        r is Some <==> (v@.len() > 0 && all_digits(v@) && digits_val(v@) <= u64::MAX),
        r is Some ==> r->Some_0 == digits_val(v@),
{
    if v.len() == 0 {
        return None;
    }
    let mut acc: u64 = 0;
    let mut i: usize = 0;
    while i < v.len()
        invariant
            i <= v@.len(),
            all_digits(v@.take(i as int)),
            acc == digits_val(v@.take(i as int)),
        decreases v@.len() - i,
    {
        let c = v[i];
        if c < '0' || c > '9' {
            assert(!is_digit(v@[i as int]));
            return None;
        }
        let d: u64 = (c as u32 - 48) as u64;
        proof {
            assert(v@.take(i + 1).drop_last() =~= v@.take(i as int));
            assert(v@.take(i + 1).last() == v@[i as int]);
        }
        if acc > (u64::MAX - d) / 10 {
            // The prefix up to and including this digit is already too
            // large, and appending digits can only grow the value.
            proof {
                lemma_digits_val_prefix_le(v@, i + 1);
            }
            return None;
        }
        acc = acc * 10 + d;
        i = i + 1;
    }
    proof {
        assert(v@.take(v@.len() as int) =~= v@);
    }
    Some(acc)
}

/// A prefix of a digit string writes a number no larger than the whole.
pub proof fn lemma_digits_val_prefix_le(s: Seq<char>, i: int)
    requires
        0 <= i <= s.len(),
    ensures
        digits_val(s.take(i)) <= digits_val(s),
    decreases s.len() - i,
{
    if i < s.len() {
        lemma_digits_val_prefix_le(s, i + 1);
        assert(s.take(i + 1).drop_last() =~= s.take(i));
        assert(digits_val(s.take(i)) <= digits_val(s.take(i + 1)));
    } else {
        assert(s.take(i) =~= s);
    }
}

/// Reads `v` as a decimal `u32`.
pub fn parse_u32(v: &Vec<char>) -> (r: Option<u32>)
    ensures
        r is Some <==> (v@.len() > 0 && all_digits(v@) && digits_val(v@) <= u32::MAX),
        r is Some ==> r->Some_0 == digits_val(v@),
{
    match parse_u64(v) {
        None => None,
        Some(x) => if x <= u32::MAX as u64 {
            Some(x as u32)
        } else {
            None
        },
    }
}

/// Reads `v` as a decimal `usize`.
pub fn parse_usize(v: &Vec<char>) -> (r: Option<usize>)
    ensures
        r is Some <==> (v@.len() > 0 && all_digits(v@) && digits_val(v@) <= usize::MAX),
        r is Some ==> r->Some_0 == digits_val(v@),
{
    match parse_u64(v) {
        None => None,
        Some(x) => if x <= usize::MAX as u64 {
            Some(x as usize)
        } else {
            None
        },
    }
}

/// The pieces of `s` between occurrences of `sep`; always non-empty,
/// and separators at the ends produce empty pieces.
pub open spec fn spec_split(s: Seq<char>, sep: char) -> Seq<Seq<char>>
    decreases s.len(),
{
    if s.len() == 0 {
        seq![Seq::empty()]
    } else {
        let rest = spec_split(s.skip(1), sep);
        if s[0] == sep {
            seq![Seq::empty()] + rest
        } else {
            seq![seq![s[0]] + rest[0]] + rest.skip(1)
        }
    }
}

pub proof fn lemma_spec_split_len(s: Seq<char>, sep: char)
    ensures
        spec_split(s, sep).len() >= 1,
    decreases s.len(),
{
    if s.len() > 0 {
        lemma_spec_split_len(s.skip(1), sep);
    }
}

/// Splits `v` on `sep`, as `str::split` does for a character pattern.
pub fn split_chars(v: &Vec<char>, sep: char) -> (parts: Vec<Vec<char>>)
    ensures
        parts@.map_values(|p: Vec<char>| p@) == spec_split(v@, sep),
        parts@.len() >= 1,
{
    let ghost whole = v@;
    let mut parts: Vec<Vec<char>> = Vec::new();
    let mut cur: Vec<char> = Vec::new();
    let mut i: usize = 0;
    proof {
        lemma_spec_split_len(v@, sep);
        assert(v@.skip(0) =~= v@);
    }
    while i < v.len()
        invariant
            i <= v@.len(),
            v@ == whole,
            spec_split(whole, sep).len() >= 1,
            spec_split(v@.skip(i as int), sep).len() >= 1,
            spec_split(whole, sep) =~~= parts@.map_values(|p: Vec<char>| p@)
                + seq![cur@ + spec_split(v@.skip(i as int), sep)[0]]
                + spec_split(v@.skip(i as int), sep).skip(1),
        decreases v@.len() - i,
    {
        let ghost before = v@.skip(i as int);
        let ghost after = v@.skip(i + 1);
        proof {
            assert(before.skip(1) =~= after);
            lemma_spec_split_len(after, sep);
        }
        let c = v[i];
        if c == sep {
            assert(spec_split(before, sep) =~~= seq![Seq::<char>::empty()] + spec_split(after, sep));
            let done = cur;
            cur = Vec::new();
            parts.push(done);
            proof {
                assert(spec_split(whole, sep) =~~= parts@.map_values(|p: Vec<char>| p@)
                    + seq![cur@ + spec_split(after, sep)[0]]
                    + spec_split(after, sep).skip(1));
            }
        } else {
            assert(spec_split(before, sep) =~~= seq![seq![before[0]] + spec_split(after, sep)[0]]
                + spec_split(after, sep).skip(1));
            cur.push(c);
            proof {
                assert(spec_split(whole, sep) =~~= parts@.map_values(|p: Vec<char>| p@)
                    + seq![cur@ + spec_split(after, sep)[0]]
                    + spec_split(after, sep).skip(1));
            }
        }
        i = i + 1;
    }
    proof {
        assert(v@.skip(v@.len() as int) =~= Seq::<char>::empty());
        assert(spec_split(Seq::<char>::empty(), sep) =~~= seq![Seq::<char>::empty()]);
    }
    parts.push(cur);
    proof {
        assert(parts@.map_values(|p: Vec<char>| p@) =~~= spec_split(whole, sep));
    }
    parts
}

/// The lines of `s`, as `str::lines` produces them: pieces between `'\n'`
/// characters, a carriage return at the end of a terminated line removed,
/// and a final empty piece dropped.
pub open spec fn spec_lines(s: Seq<char>) -> Seq<Seq<char>> {
    let raw = spec_split(s, '\n');
    let stripped = Seq::new(
        raw.len(),
        |i: int|
            if i < raw.len() - 1 && raw[i].len() > 0 && raw[i].last() == '\r' {
                raw[i].drop_last()
            } else {
                raw[i]
            },
    );
    if stripped.last().len() == 0 {
        stripped.drop_last()
    } else {
        stripped
    }
}

/// Splits `v` into lines, as `str::lines` does.
pub fn split_lines(v: &Vec<char>) -> (lines: Vec<Vec<char>>)
    ensures
        lines@.map_values(|p: Vec<char>| p@) == spec_lines(v@),
{
    let mut raw = split_chars(v, '\n');
    let ghost raws = raw@.map_values(|p: Vec<char>| p@);
    let n = raw.len();
    let mut i: usize = 0;
    while i < n
        invariant
            n == raw@.len() == raws.len(),
            i <= n,
            forall|j: int| i <= j < n ==> raw@[j]@ == raws[j],
            forall|j: int| 0 <= j < i ==> raw@[j]@ == (
                if j < n - 1 && raws[j].len() > 0 && raws[j].last() == '\r' {
                    raws[j].drop_last()
                } else {
                    raws[j]
                }
            ),
        decreases n - i,
    {
        if i + 1 < n && raw[i].len() > 0 {
            let li = raw[i].len() - 1;
            if raw[i][li] == '\r' {
                let row = &mut raw[i];
                row.pop();
            }
        }
        i = i + 1;
    }
    if raw.len() >= 1 && raw[raw.len() - 1].len() == 0 {
        raw.pop();
    }
    proof {
        assert(raw@.map_values(|p: Vec<char>| p@) =~= spec_lines(v@));
    }
    raw
}

} // verus!
