//! Whole numbers as text.
use vstd::prelude::*;
use crate::cut;
use crate::text;

verus! {

/// What a run of digits comes to.
pub open spec fn digits_value(s: Seq<char>) -> int
    decreases s.len(),
{
    if s.len() == 0 {
        0
    } else {
        digits_value(s.drop_last()) * 10 + (s.last() as int - 48)
    }
}

pub open spec fn is_digits(s: Seq<char>) -> bool {
    s.len() > 0 && forall|i: int| 0 <= i < s.len() ==> cut::digit(#[trigger] s[i])
}

/// Digits to the right only make a number greater.
proof fn lemma_value_grows(s: Seq<char>, n: int)
    requires
        0 <= n <= s.len(),
        forall|i: int| 0 <= i < s.len() ==> cut::digit(#[trigger] s[i]),
    ensures
        0 <= digits_value(s.take(n)) <= digits_value(s),
    decreases s.len(),
{
    if n < s.len() {
        let l = s.drop_last();
        assert forall|i: int| 0 <= i < l.len() implies cut::digit(#[trigger] l[i]) by {
            assert(l[i] == s[i]);
        }
        lemma_value_grows(l, n);
        assert(l.take(n) =~= s.take(n));
        assert(cut::digit(s[s.len() - 1]));
    } else {
        assert(s.take(n) =~= s);
        if s.len() > 0 {
            let l = s.drop_last();
            assert forall|i: int| 0 <= i < l.len() implies cut::digit(#[trigger] l[i]) by {
                assert(l[i] == s[i]);
            }
            lemma_value_grows(l, l.len() as int);
            assert(l.take(l.len() as int) =~= l);
            assert(cut::digit(s[s.len() - 1]));
        }
    }
}

/// The number that the digits from `from` on spell, where it is not above `max`.
fn read_digits(v: &Vec<char>, from: usize, max: u64) -> (r: Option<u64>)
    requires
        from <= v.len(),
    ensures
        ({
            let s = v@.skip(from as int);
            match r {
                Some(n) => is_digits(s) && digits_value(s) == n && n <= max,
                None => !is_digits(s) || digits_value(s) > max,
            }
        }),
{
    let ghost s = v@.skip(from as int);
    if from >= v.len() {
        return None;
    }
    let mut i: usize = from;
    while i < v.len()
        invariant
            from <= i <= v.len(),
            s == v@.skip(from as int),
            forall|j: int| 0 <= j < i - from ==> cut::digit(#[trigger] s[j]),
        decreases v.len() - i,
    {
        assert(s[i - from] == v@[i as int]);
        if !('0' <= v[i] && v[i] <= '9') {
            assert(!cut::digit(s[i - from]));
            return None;
        }
        i += 1;
    }
    let mut n: u64 = 0;
    let mut k: usize = from;
    assert(s.take(0) =~= Seq::empty());
    while k < v.len()
        invariant
            from <= k <= v.len(),
            s == v@.skip(from as int),
            s.len() == v.len() - from,
            is_digits(s),
            n == digits_value(s.take(k - from)),
            n <= max,
        decreases v.len() - k,
    {
        proof {
            assert(s.take(k - from + 1).drop_last() =~= s.take(k - from));
            assert(s[k - from] == v@[k as int]);
            assert(cut::digit(s[k - from]));
            lemma_value_grows(s, k - from + 1);
        }
        let d: u64 = (v[k] as u32 - 48) as u64;
        let wide: u128 = n as u128 * 10 + d as u128;
        assert(wide == digits_value(s.take(k - from + 1)));
        if wide > max as u128 {
            return None;
        }
        n = wide as u64;
        k += 1;
    }
    assert(s.take(k - from) =~= s);
    Some(n)
}

/// The unsigned number that a text spells: digits, after a plus sign or none.
pub open spec fn unsigned_in(s: Seq<char>) -> Option<int> {
    let d = if s.len() > 0 && s[0] == '+' {
        s.skip(1)
    } else {
        s
    };
    if is_digits(d) && digits_value(d) <= u64::MAX {
        Some(digits_value(d))
    } else {
        None
    }
}

/// The unsigned 64-bit number that a text spells.
pub fn parse_unsigned(t: &str) -> (r: Option<u64>)
    ensures
        match r {
            Some(n) => unsigned_in(t@) == Some(n as int),
            None => unsigned_in(t@) is None,
        },
{
    let v: Vec<char> = text::chars(t);
    assert(v@.skip(0) =~= v@);
    if v.len() > 0 && v[0] == '+' {
        read_digits(&v, 1, 0xffff_ffff_ffff_ffff)
    } else {
        read_digits(&v, 0, 0xffff_ffff_ffff_ffff)
    }
}

/// The number that a text spells: digits, after a sign or none, within 64 bits.
pub open spec fn signed_in(s: Seq<char>) -> Option<int> {
    if s.len() > 0 && s[0] == '-' {
        let d = s.skip(1);
        if is_digits(d) && digits_value(d) <= 0x8000_0000_0000_0000 {
            Some(-digits_value(d))
        } else {
            None
        }
    } else {
        let d = if s.len() > 0 && s[0] == '+' {
            s.skip(1)
        } else {
            s
        };
        if is_digits(d) && digits_value(d) <= i64::MAX {
            Some(digits_value(d))
        } else {
            None
        }
    }
}

/// The signed 64-bit number that a text spells.
pub fn parse_signed(t: &str) -> (r: Option<i64>)
    ensures
        match r {
            Some(n) => signed_in(t@) == Some(n as int),
            None => signed_in(t@) is None,
        },
{
    let v: Vec<char> = text::chars(t);
    assert(v@.skip(0) =~= v@);
    if v.len() > 0 && v[0] == '-' {
        match read_digits(&v, 1, 0x8000_0000_0000_0000) {
            Some(n) => {
                let m: i128 = -(n as i128);
                Some(m as i64)
            },
            None => None,
        }
    } else {
        let from: usize = if v.len() > 0 && v[0] == '+' {
            1
        } else {
            0
        };
        match read_digits(&v, from, 0x7fff_ffff_ffff_ffff) {
            Some(n) => Some(n as i64),
            None => None,
        }
    }
}

/// A number in decimal digits, after a minus sign where it is negative.
pub open spec fn signed_text(n: int) -> Seq<char> {
    if n < 0 {
        "-"@ + text::decimal((-n) as nat)
    } else {
        text::decimal(n as nat)
    }
}

/// A number in decimal digits, after a minus sign where it is negative.
pub fn show_signed(n: i64) -> (r: String)
    ensures
        r@ == signed_text(n as int),
{
    if n < 0 {
        let m: i128 = -(n as i128);
        text::join("-", text::show(m as u64).as_str())
    } else {
        text::show(n as u64)
    }
}

/// A number is written in digits that come to it.
pub proof fn lemma_decimal(n: nat)
    ensures
        is_digits(text::decimal(n)),
        digits_value(text::decimal(n)) == n,
        text::decimal(n)[0] != '+',
        text::decimal(n)[0] != '-',
    decreases n,
{
    let s = text::decimal(n);
    if n >= 10 {
        lemma_decimal(n / 10);
        let front = text::decimal(n / 10);
        assert(s.drop_last() =~= front);
        assert(s[0] == front[0]);
        assert forall|i: int| 0 <= i < s.len() implies cut::digit(#[trigger] s[i]) by {
            if i < front.len() {
                assert(cut::digit(front[i]));
            }
        }
    } else {
        assert(digits_value(s.drop_last()) == 0);
    }
}

/// What is written is read back: the text of a number spells that number, also with a sign.
pub proof fn a_number_is_read_back(n: int)
    ensures
        0 <= n <= u64::MAX ==> unsigned_in(text::decimal(n as nat)) == Some(n) && unsigned_in(
            seq!['+'] + text::decimal(n as nat),
        ) == Some(n),
        i64::MIN <= n <= i64::MAX ==> signed_in(signed_text(n)) == Some(n),
        0 <= n && n > u64::MAX ==> unsigned_in(text::decimal(n as nat)) is None,
        n < i64::MIN || n > i64::MAX ==> signed_in(signed_text(n)) is None,
{
    reveal_strlit("-");
    if n >= 0 {
        lemma_decimal(n as nat);
        assert((seq!['+'] + text::decimal(n as nat)).skip(1) =~= text::decimal(n as nat));
    } else {
        lemma_decimal((-n) as nat);
        assert(("-"@ + text::decimal((-n) as nat)).skip(1) =~= text::decimal((-n) as nat));
        assert(("-"@ + text::decimal((-n) as nat))[0] == '-');
    }
}

/// The text of a number starts with a digit or a minus sign and ends with a digit.
pub proof fn lemma_signed_text(n: int)
    ensures
        signed_text(n).len() > 0,
        signed_text(n)[0] == '-' || cut::digit(signed_text(n)[0]),
        cut::digit(signed_text(n).last()),
{
    reveal_strlit("-");
    if n >= 0 {
        lemma_decimal(n as nat);
        let d = text::decimal(n as nat);
        assert(cut::digit(d[0]) && cut::digit(d[d.len() - 1]));
    } else {
        lemma_decimal((-n) as nat);
        let d = text::decimal((-n) as nat);
        assert(cut::digit(d[d.len() - 1]));
        assert(("-"@ + d)[0] == '-');
        assert(("-"@ + d).last() == d[d.len() - 1]);
    }
}

/// A text that is not made of digits, after one sign at most, spells no number.
pub proof fn only_digits_are_a_number(s: Seq<char>, i: int)
    requires
        1 <= i < s.len(),
        !cut::digit(s[i]),
    ensures
        unsigned_in(s) is None,
        signed_in(s) is None,
        unsigned_in(Seq::empty()) is None,
        signed_in(Seq::empty()) is None,
{
    let t = s.skip(1);
    assert(t[i - 1] == s[i]);
}

} // verus!
