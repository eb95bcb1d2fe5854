//! The running line counter.
//!
//! The counter is kept as its decimal digits, most significant first. It can
//! therefore count past any machine integer, and the number that is printed
//! in front of a line is read off without a division.

use vstd::prelude::*;

verus! {

/// The character that stands for the digit `d`, for `0 <= d <= 9`.
pub open spec fn digit_char(d: int) -> char {
    if d == 0 {
        '0'
    } else if d == 1 {
        '1'
    } else if d == 2 {
        '2'
    } else if d == 3 {
        '3'
    } else if d == 4 {
        '4'
    } else if d == 5 {
        '5'
    } else if d == 6 {
        '6'
    } else if d == 7 {
        '7'
    } else if d == 8 {
        '8'
    } else {
        '9'
    }
}

/// Whether `c` is one of the ten decimal digits.
pub open spec fn is_digit(c: char) -> bool {
    c == '0' || c == '1' || c == '2' || c == '3' || c == '4' || c == '5' || c == '6' || c == '7'
        || c == '8' || c == '9'
}

/// The number that the digit `c` stands for.
pub open spec fn digit_value(c: char) -> int {
    if c == '0' {
        0
    } else if c == '1' {
        1
    } else if c == '2' {
        2
    } else if c == '3' {
        3
    } else if c == '4' {
        4
    } else if c == '5' {
        5
    } else if c == '6' {
        6
    } else if c == '7' {
        7
    } else if c == '8' {
        8
    } else {
        9
    }
}

/// The decimal notation of `n`, without leading zeros: `decimal(0)` is `"0"`
/// and `decimal(120)` is `"120"`.
pub open spec fn decimal(n: nat) -> Seq<char>
    decreases n,
{
    if n < 10 {
        seq![digit_char(n as int)]
    } else {
        decimal(n / 10).push(digit_char((n % 10) as int))
    }
}

/// The number that a string of digits denotes; the empty string denotes 0.
pub open spec fn decimal_value(s: Seq<char>) -> nat
    decreases s.len(),
{
    if s.len() == 0 {
        0
    } else {
        (decimal_value(s.drop_last()) * 10 + digit_value(s.last())) as nat
    }
}

/// A string of digits without a leading zero. The empty string is one: it
/// denotes zero.
pub open spec fn is_numeral(s: Seq<char>) -> bool {
    &&& forall|i: int| 0 <= i < s.len() ==> is_digit(#[trigger] s[i])
    &&& s.len() > 0 ==> s[0] != '0'
}

/// The numeral of the successor of the number that the numeral `s` denotes.
pub open spec fn successor(s: Seq<char>) -> Seq<char>
    decreases s.len(),
{
    if s.len() == 0 {
        seq!['1']
    } else if s.last() == '9' {
        successor(s.drop_last()).push('0')
    } else {
        s.drop_last().push(digit_char(digit_value(s.last()) + 1))
    }
}

/// `text`, with spaces in front of it where it is shorter than `width`.
pub open spec fn right_aligned(text: Seq<char>, width: nat) -> Seq<char> {
    if text.len() < width {
        Seq::new((width - text.len()) as nat, |i: int| ' ') + text
    } else {
        text
    }
}

/// A numeral that is not empty is the decimal notation of the number it
/// denotes, and that number is positive.
pub proof fn lemma_numeral_is_decimal(s: Seq<char>)
    requires
        is_numeral(s),
        s.len() > 0,
    ensures
        decimal(decimal_value(s)) == s,
        decimal_value(s) > 0,
    decreases s.len(),
{
    let p = s.drop_last();
    let d = digit_value(s.last());
    if s.len() > 1 {
        assert(is_numeral(p));
        lemma_numeral_is_decimal(p);
        assert(decimal(decimal_value(s)) =~= decimal(decimal_value(p)).push(digit_char(d)));
    } else {
        assert(decimal_value(p) == 0);
    }
}

/// `successor` adds one to the number denoted, and gives a numeral again.
pub proof fn lemma_successor(s: Seq<char>)
    requires
        is_numeral(s),
    ensures
        is_numeral(successor(s)),
        successor(s).len() > 0,
        decimal_value(successor(s)) == decimal_value(s) + 1,
    decreases s.len(),
{
    let t = successor(s);
    if s.len() == 0 {
        assert(decimal_value(t.drop_last()) == 0);
    } else {
        let p = s.drop_last();
        assert(is_numeral(p));
        if s.last() == '9' {
            lemma_successor(p);
            assert(t.drop_last() =~= successor(p));
        } else {
            assert(t.drop_last() =~= p);
        }
    }
}

/// A string of digits denotes at least what any of its beginnings denotes.
pub proof fn lemma_prefix_is_no_greater(s: Seq<char>, k: int)
    requires
        0 <= k <= s.len(),
    ensures
        decimal_value(s.take(k)) <= decimal_value(s),
    decreases s.len() - k,
{
    if k == s.len() {
        assert(s.take(k) =~= s);
    } else {
        lemma_prefix_is_no_greater(s, k + 1);
        assert(s.take(k + 1).drop_last() =~= s.take(k));
    }
}

/// The number that the digit `c` stands for.
fn digit_number(c: char) -> (n: u64)
    ensures
        n == digit_value(c),
{
    if c == '0' {
        0
    } else if c == '1' {
        1
    } else if c == '2' {
        2
    } else if c == '3' {
        3
    } else if c == '4' {
        4
    } else if c == '5' {
        5
    } else if c == '6' {
        6
    } else if c == '7' {
        7
    } else if c == '8' {
        8
    } else {
        9
    }
}

/// The digit that follows `c`; `'0'` follows `'9'`.
fn next_digit(c: char) -> (r: char)
    requires
        is_digit(c),
    ensures
        c != '9' ==> r == digit_char(digit_value(c) + 1),
        c == '9' ==> r == '0',
{
    if c == '0' {
        '1'
    } else if c == '1' {
        '2'
    } else if c == '2' {
        '3'
    } else if c == '3' {
        '4'
    } else if c == '4' {
        '5'
    } else if c == '5' {
        '6'
    } else if c == '6' {
        '7'
    } else if c == '7' {
        '8'
    } else if c == '8' {
        '9'
    } else {
        '0'
    }
}

/// Replaces the digits in `digits` by those of the next number.
fn increment_digits(digits: &mut Vec<char>)
    requires
        is_numeral(old(digits)@),
    ensures
        final(digits)@ == successor(old(digits)@),
{
    let ghost before = digits@;
    let mut i: usize = digits.len();
    proof {
        assert(before.take(i as int) =~= before);
    }
    while i > 0
        invariant
            i <= digits.len(),
            before == old(digits)@,
            digits.len() == before.len(),
            is_numeral(before),
            digits@.take(i as int) == before.take(i as int),
            successor(before) == successor(before.take(i as int)) + digits@.skip(i as int),
        decreases i,
    {
        i = i - 1;
        let c = digits[i];
        let ghost prefix = before.take(i + 1);
        proof {
            assert(prefix.drop_last() =~= before.take(i as int));
        }
        digits.set(i, next_digit(c));
        proof {
            assert(digits@.take(i as int) =~= before.take(i as int)) by {
                assert forall|j: int| 0 <= j < i implies digits@[j] == before[j] by {
                    assert(before.take(i + 1)[j] == before[j]);
                }
            }
        }
        if c != '9' {
            return ;
        }
    }
    digits.insert(0, '1');
}

/// A counter of lines that starts at zero and has no upper limit.
pub struct LineCounter {
    digits: Vec<char>,
}

impl View for LineCounter {
    type V = nat;

    /// The number of lines counted so far.
    closed spec fn view(&self) -> nat {
        decimal_value(self.digits@)
    }
}

impl LineCounter {
    #[verifier::type_invariant]
    spec fn well_formed(&self) -> bool {
        is_numeral(self.digits@)
    }

    /// A counter that has counted nothing yet.
    pub fn new() -> (counter: LineCounter)
        ensures
            counter@ == 0,
    {
        LineCounter { digits: Vec::new() }
    }

    /// Counts one more line.
    pub fn increment(&mut self)
        ensures
            final(self)@ == old(self)@ + 1,
    {
        proof {
            use_type_invariant(&*self);
            lemma_successor(self.digits@);
        }
        let mut digits: Vec<char> = Vec::new();
        std::mem::swap(&mut digits, &mut self.digits);
        increment_digits(&mut digits);
        self.digits = digits;
    }

    /// The count as a machine integer, if it fits in one.
    pub fn value(&self) -> (value: Option<u64>)
        ensures
            match value {
                Some(n) => n == self@,
                None => self@ > u64::MAX,
            },
    {
        proof {
            use_type_invariant(self);
        }
        let n = self.digits.len();
        let mut total: u64 = 0;
        let mut i: usize = 0;
        while i < n
            invariant
                i <= n,
                n == self.digits@.len(),
                is_numeral(self.digits@),
                total == decimal_value(self.digits@.take(i as int)),
            decreases n - i,
        {
            let digit = digit_number(self.digits[i]);
            proof {
                assert(self.digits@.take(i + 1).drop_last() =~= self.digits@.take(i as int));
            }
            let next = match total.checked_mul(10) {
                Some(shifted) => shifted.checked_add(digit),
                None => None,
            };
            match next {
                Some(sum) => {
                    total = sum;
                },
                None => {
                    proof {
                        lemma_prefix_is_no_greater(self.digits@, i + 1);
                    }
                    return None;
                },
            }
            i = i + 1;
        }
        proof {
            assert(self.digits@.take(n as int) =~= self.digits@);
        }
        Some(total)
    }

    /// Appends the count to `out` in decimal notation, with spaces in front
    /// of it where it has fewer than `width` digits.
    pub fn write_right_aligned(&self, width: usize, out: &mut String)
        ensures
            final(out)@ == old(out)@ + right_aligned(decimal(self@), width as nat),
    {
        proof {
            use_type_invariant(self);
            if self.digits@.len() > 0 {
                lemma_numeral_is_decimal(self.digits@);
            }
        }
        let count: usize = self.digits.len();
        let shown: usize = if count == 0 {
            1
        } else {
            count
        };
        let pad: usize = if shown < width {
            width - shown
        } else {
            0
        };
        let mut i: usize = 0;
        while i < pad
            invariant
                i <= pad,
                out@ == old(out)@ + Seq::new(i as nat, |j: int| ' '),
            decreases pad - i,
        {
            out.push(' ');
            i = i + 1;
        }
        if count == 0 {
            out.push('0');
        } else {
            let mut k: usize = 0;
            while k < count
                invariant
                    k <= count,
                    count == self.digits@.len(),
                    out@ == old(out)@ + Seq::new(pad as nat, |j: int| ' ') + self.digits@.take(
                        k as int,
                    ),
                decreases count - k,
            {
                out.push(self.digits[k]);
                k = k + 1;
            }
        }
    }
}

} // verus!
