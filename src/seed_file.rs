//! The seed file format: one non-negative decimal node id per line.
//!
//! A line ends at `\n`; a `\r` right before it is dropped too. Text after the
//! last line break forms a last line when it is not empty. A line holds an
//! optional `+` and then one or more ASCII digits whose value fits `usize`;
//! any other line, an empty one included, is an error.
use vstd::prelude::*;

verus! {

pub const NEWLINE: u8 = 10;

pub const CARRIAGE_RETURN: u8 = 13;

pub const PLUS: u8 = 43;

pub const ZERO: u8 = 48;

pub const NINE: u8 = 57;

pub open spec fn is_digit(b: u8) -> bool {
    ZERO <= b <= NINE
}

pub open spec fn all_digits(s: Seq<u8>) -> bool {
    forall|i: int| 0 <= i < s.len() ==> is_digit(#[trigger] s[i])
}

/// The value of a string of decimal digits, most significant first.
pub open spec fn digits_value(s: Seq<u8>) -> nat
    decreases s.len(),
{
    if s.len() == 0 {
        0
    } else {
        digits_value(s.drop_last()) * 10 + (s.last() - ZERO) as nat
    }
}

/// A line without its optional leading `+`.
pub open spec fn unsigned_part(line: Seq<u8>) -> Seq<u8> {
    if line.len() > 0 && line[0] == PLUS {
        line.drop_first()
    } else {
        line
    }
}

/// The node id that a line holds, if it is well formed.
pub open spec fn line_id(line: Seq<u8>) -> Option<usize> {
    let d = unsigned_part(line);
    if d.len() > 0 && all_digits(d) && digits_value(d) <= usize::MAX {
        Some(digits_value(d) as usize)
    } else {
        None
    }
}

/// The position of the first `\n` of `s`, or its length when it has none.
pub open spec fn line_end(s: Seq<u8>) -> nat
    decreases s.len(),
{
    if s.len() == 0 || s[0] == NEWLINE {
        0
    } else {
        1 + line_end(s.drop_first())
    }
}

/// The first line of a non-empty `s`, without its line break.
pub open spec fn first_line(s: Seq<u8>) -> Seq<u8> {
    let k = line_end(s);
    if 0 < k < s.len() && s[k - 1] == CARRIAGE_RETURN {
        s.take(k - 1)
    } else {
        s.take(k as int)
    }
}

/// What follows the first line break of `s` (nothing when it has none).
pub open spec fn after_first_line(s: Seq<u8>) -> Seq<u8> {
    if line_end(s) < s.len() {
        s.skip(line_end(s) + 1int)
    } else {
        Seq::empty()
    }
}

/// The ids of a seed file in line order, or the index (from 0) of its first
/// malformed line.
pub open spec fn seeds_of_text(s: Seq<u8>) -> Result<Seq<usize>, nat>
    decreases s.len(),
{
    if s.len() == 0 {
        Ok(Seq::empty())
    } else {
        match line_id(first_line(s)) {
            None => Err(0),
            Some(v) => match seeds_of_text(after_first_line(s)) {
                Ok(r) => Ok(seq![v] + r),
                Err(j) => Err(j + 1),
            },
        }
    }
}

/// A malformed line in a seed file, by its index from 0.
#[derive(Debug, Clone, Copy, PartialEq, Eq, Structural)]
pub struct SeedLineError {
    pub line: usize,
}

/// The result of the whole file once the ids in `done` were read before it.
pub open spec fn after_lines(done: Seq<usize>, r: Result<Seq<usize>, nat>) -> Result<Seq<usize>, nat> {
    match r {
        Ok(ids) => Ok(done + ids),
        Err(j) => Err(done.len() + j),
    }
}

proof fn lemma_line_end(s: Seq<u8>, k: int)
    requires
        0 <= k <= s.len(),
        forall|m: int| 0 <= m < k ==> s[m] != NEWLINE,
        k == s.len() || s[k] == NEWLINE,
    ensures
        line_end(s) == k,
    decreases k,
{
    if k > 0 {
        assert(s[0] != NEWLINE);
        lemma_line_end(s.drop_first(), k - 1);
    }
}

proof fn lemma_prefix_value_le(s: Seq<u8>, m: int)
    requires
        all_digits(s),
        0 <= m <= s.len(),
    ensures
        digits_value(s.take(m)) <= digits_value(s),
    decreases s.len(),
{
    if m < s.len() {
        assert(s.take(m) =~= s.drop_last().take(m));
        lemma_prefix_value_le(s.drop_last(), m);
    } else {
        assert(s.take(m) =~= s);
    }
}

/// The id on the line `text[lo..hi]`.
pub fn parse_line(text: &[u8], lo: usize, hi: usize) -> (r: Option<usize>)
    requires
        lo <= hi <= text@.len(),
    ensures
        r == line_id(text@.subrange(lo as int, hi as int)),
{
    let ghost line = text@.subrange(lo as int, hi as int);
    let mut i: usize = lo;
    if i < hi && text[i] == PLUS {
        i = i + 1;
    }
    let first: usize = i;
    let ghost digits = text@.subrange(first as int, hi as int);
    assert(unsigned_part(line) =~= digits);
    if first == hi {
        return None;
    }
    let mut v: usize = 0;
    while i < hi
        invariant
            first <= i <= hi <= text@.len(),
            digits == text@.subrange(first as int, hi as int),
            line == text@.subrange(lo as int, hi as int),
            unsigned_part(line) == digits,
            digits.len() > 0,
            all_digits(text@.subrange(first as int, i as int)),
            v == digits_value(text@.subrange(first as int, i as int)),
        decreases hi - i,
    {
        let b = text[i];
        let ghost prefix = text@.subrange(first as int, i as int + 1);
        proof {
            assert(prefix.drop_last() =~= text@.subrange(first as int, i as int));
            assert(prefix =~= digits.take(i - first + 1));
        }
        if b < ZERO || b > NINE {
            assert(!is_digit(digits[i - first]));
            return None;
        }
        let d: usize = (b - ZERO) as usize;
        if v > (usize::MAX - d) / 10 {
            proof {
                assert(v * 10 + d > usize::MAX) by (nonlinear_arith)
                    requires
                        v > (usize::MAX - d) / 10,
                        d <= 9,
                ;
                assert(digits_value(prefix) == v * 10 + d);
                if all_digits(digits) {
                    lemma_prefix_value_le(digits, i - first + 1);
                }
            }
            return None;
        }
        proof {
            assert(v * 10 + d <= usize::MAX) by (nonlinear_arith)
                requires
                    v <= (usize::MAX - d) / 10,
                    d <= 9,
            ;
        }
        v = v * 10 + d;
        i = i + 1;
    }
    assert(text@.subrange(first as int, i as int) =~= digits);
    Some(v)
}

/// Reads the ids of a seed file, in line order; duplicates are kept.
pub fn parse_seeds(text: &[u8]) -> (r: Result<Vec<usize>, SeedLineError>)
    ensures
        match seeds_of_text(text@) {
            Ok(ids) => r matches Ok(v) && v@ == ids,
            Err(k) => r matches Err(e) && e.line == k,
        },
{
    let mut ids: Vec<usize> = Vec::new();
    let mut start: usize = 0;
    assert(text@.skip(0) =~= text@);
    assert(Seq::<usize>::empty() + ids@ =~= ids@);
    while start < text.len()
        invariant
            start <= text@.len(),
            ids@.len() <= start,
            seeds_of_text(text@) == after_lines(ids@, seeds_of_text(text@.skip(start as int))),
        decreases text.len() - start,
    {
        let ghost rest = text@.skip(start as int);
        let mut end: usize = start;
        while end < text.len() && text[end] != NEWLINE
            invariant
                start <= end <= text@.len(),
                forall|m: int| start <= m < end ==> text@[m] != NEWLINE,
            decreases text.len() - end,
        {
            end = end + 1;
        }
        proof {
            lemma_line_end(rest, end - start);
        }
        let mut stop: usize = end;
        if end < text.len() && end > start && text[end - 1] == CARRIAGE_RETURN {
            stop = end - 1;
        }
        assert(first_line(rest) =~= text@.subrange(start as int, stop as int));
        match parse_line(text, start, stop) {
            None => {
                return Err(SeedLineError { line: ids.len() });
            },
            Some(v) => {
                let ghost before = ids@;
                ids.push(v);
                proof {
                    assert(before + seq![v] =~= ids@);
                    assert forall|r: Seq<usize>| before + (seq![v] + r) == ids@ + r by {
                        assert(before + (seq![v] + r) =~= ids@ + r);
                    }
                }
            },
        }
        if end < text.len() {
            start = end + 1;
        } else {
            start = end;
        }
        assert(after_first_line(rest) =~= text@.skip(start as int));
    }
    assert(text@.skip(start as int) =~= Seq::<u8>::empty());
    assert(ids@ + Seq::<usize>::empty() =~= ids@);
    Ok(ids)
}

} // verus!
