//! Command-line option model: the values the scanner is configured with.

use vstd::prelude::*;
use vstd::string::*;

verus! {

/// Log verbosity selection.
#[derive(Clone, Debug)]
pub enum Level {
    Off,
    Error,
    Warn,
    Info,
    Debug,
    Trace,
}

/// Radix used when printing match offsets.
#[derive(Clone, Debug)]
pub enum Radix {
    D,
    X,
}

/// The options the scanner runs under.
#[derive(Debug)]
pub struct Opt {
    pub input: String,
    pub log_level: Level,
    pub length: usize,
    pub radix: Option<Radix>,
    pub file_name: bool,
    pub alignment: Option<usize>,
}

/// A positive value with exactly one bit set.
pub open spec fn is_pow2(a: usize) -> bool {
    a != 0 && a & (a - 1) as usize == 0
}

pub open spec fn is_digit_char(c: char) -> bool {
    '0' <= c && c <= '9'
}

pub open spec fn all_digits(s: Seq<char>) -> bool {
    forall|i: int| 0 <= i < s.len() ==> is_digit_char(#[trigger] s[i])
}

/// The value of a digit string read in base ten.
pub open spec fn digits_val(s: Seq<char>) -> int
    decreases s.len(),
{
    if s.len() == 0 {
        0
    } else {
        digits_val(s.drop_last()) * 10 + (s.last() as u32 - 48)
    }
}

/// What the string parses to as an unsigned machine integer: an optional
/// leading plus sign, then at least one digit, no other characters, and a
/// value that fits.
pub open spec fn parsed_usize(s: Seq<char>) -> Option<int> {
    let body = if s.len() > 0 && s[0] == '+' {
        s.drop_first()
    } else {
        s
    };
    if body.len() > 0 && all_digits(body) && digits_val(body) <= usize::MAX {
        Option::Some(digits_val(body))
    } else {
        Option::None
    }
}

proof fn lemma_digits_val_nonneg(s: Seq<char>)
    requires
        all_digits(s),
    ensures
        digits_val(s) >= 0,
    decreases s.len(),
{
    if s.len() > 0 {
        assert(all_digits(s.drop_last())) by {
            assert(forall|p: int| 0 <= p < s.len() - 1 ==> s.drop_last()[p] == s[p]);
        }
        lemma_digits_val_nonneg(s.drop_last());
    }
}

proof fn lemma_digits_val_prefix(s: Seq<char>, m: int)
    requires
        all_digits(s),
        0 <= m <= s.len(),
    ensures
        digits_val(s.take(m)) <= digits_val(s),
    decreases s.len(),
{
    if m == s.len() {
        assert(s.take(m) =~= s);
    } else {
        let head = s.drop_last();
        assert(all_digits(head)) by {
            assert(forall|p: int| 0 <= p < head.len() ==> head[p] == s[p]);
        }
        lemma_digits_val_prefix(head, m);
        assert(s.take(m) =~= head.take(m));
        lemma_digits_val_nonneg(head);
        assert(digits_val(head) <= digits_val(head) * 10);
        assert(digits_val(s) == digits_val(head) * 10 + (s.last() as u32 - 48));
    }
}

/// Checks that the string names a power of two: it must parse as an
/// unsigned integer and have exactly one bit set.
pub fn valid_alignment(s: &str) -> (r: Result<usize, String>)
    ensures
        r is Ok <==> (parsed_usize(s@) matches Option::Some(v) && v != 0 && is_pow2(v as usize)),
        r matches Ok(a) ==> parsed_usize(s@) == Option::Some(a as int),
{
    let n = s.unicode_len();
    let start: usize = if n > 0 && s.get_char(0) == '+' {
        1
    } else {
        0
    };
    let ghost body = if s@.len() > 0 && s@[0] == '+' {
        s@.drop_first()
    } else {
        s@
    };
    if n == start {
        return Err(err_not_number(s));
    }
    let mut acc: usize = 0;
    let mut i: usize = start;
    while i < n
        invariant
            start == 0 || start == 1,
            start <= i <= n,
            n == s@.len(),
            start == 1 ==> s@.len() > 0 && s@[0] == '+' && body == s@.drop_first(),
            start == 0 ==> body == s@ && !(s@.len() > 0 && s@[0] == '+'),
            body.len() == n - start,
            forall|p: int| 0 <= p < i - start ==> is_digit_char(#[trigger] body[p]),
            acc == digits_val(body.take(i - start)),
        decreases n - i,
    {
        let c = s.get_char(i);
        proof {
            if start == 1 {
                assert(body =~= s@.subrange(1, n as int));
            }
            assert(body[i - start] == s@[i as int]);
        }
        if !('0' <= c && c <= '9') {
            return Err(err_not_number(s));
        }
        let d = (c as u32 - 48) as usize;
        let ghost j = i - start;
        proof {
            assert(body.take(j + 1).drop_last() =~= body.take(j));
            assert(body.take(j + 1).last() == body[j]);
        }
        if acc > (usize::MAX - d) / 10 {
            proof {
                assert(forall|p: int| 0 <= p <= j ==> is_digit_char(#[trigger] body[p]));
                if all_digits(body) {
                    lemma_digits_val_prefix(body, j + 1);
                    assert(digits_val(body.take(j + 1)) == acc * 10 + d);
                    assert(digits_val(body) > usize::MAX);
                }
            }
            return Err(err_not_number(s));
        }
        acc = acc * 10 + d;
        i += 1;
    }
    proof {
        assert(body.take(n - start) =~= body);
        assert(all_digits(body));
        assert(parsed_usize(s@) == Option::Some(acc as int));
    }
    if acc == 0 {
        return Err(err_not_pow2(s));
    }
    if acc & (acc - 1) == 0 {
        Ok(acc)
    } else {
        Err(err_not_pow2(s))
    }
}

fn err_not_number(s: &str) -> String {
    let mut m = String::new();
    m.append("`");
    m.append(s);
    m.append("` isn't a number");
    m
}

fn err_not_pow2(s: &str) -> String {
    let mut m = String::new();
    m.append("Alignment '");
    m.append(s);
    m.append("' must be a power of two");
    m
}

} // verus!
