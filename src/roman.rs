use vstd::prelude::*;
use crate::text::push_char;

verus! {

/// The letters of a positive number, taking the largest of X, V and I
/// that still fits, one at a time, with no subtractive pairs.
pub open spec fn roman_letters(n: nat) -> Seq<char>
    decreases n,
{
    if n >= 10 {
        seq!['X'] + roman_letters((n - 10) as nat)
    } else if n >= 5 {
        seq!['V'] + roman_letters((n - 5) as nat)
    } else if n >= 1 {
        seq!['I'] + roman_letters((n - 1) as nat)
    } else {
        Seq::empty()
    }
}

/// The text of a generation number: `N` for zero, else its letters.
pub open spec fn roman_text(n: nat) -> Seq<char> {
    if n == 0 {
        seq!['N']
    } else {
        roman_letters(n)
    }
}

/// Renders a generation number in Roman letters (`N` for zero).
pub fn roman(n: i8) -> (r: String)
    requires
        n >= 0,
    ensures
        r@ == roman_text(n as nat),
{
    let mut out = String::new();
    if n == 0 {
        push_char(&mut out, 'N');
        return out;
    }
    let mut m: i8 = n;
    while m >= 10
        invariant
            0 <= m <= n,
            out@ + roman_letters(m as nat) == roman_letters(n as nat),
        decreases m,
    {
        proof {
            assert(out@.push('X') + roman_letters((m - 10) as nat) =~= out@ + roman_letters(m as nat));
        }
        push_char(&mut out, 'X');
        m = m - 10;
    }
    while m >= 5
        invariant
            0 <= m < 10,
            out@ + roman_letters(m as nat) == roman_letters(n as nat),
        decreases m,
    {
        proof {
            assert(out@.push('V') + roman_letters((m - 5) as nat) =~= out@ + roman_letters(m as nat));
        }
        push_char(&mut out, 'V');
        m = m - 5;
    }
    while m >= 1
        invariant
            0 <= m < 5,
            out@ + roman_letters(m as nat) == roman_letters(n as nat),
        decreases m,
    {
        proof {
            assert(out@.push('I') + roman_letters((m - 1) as nat) =~= out@ + roman_letters(m as nat));
        }
        push_char(&mut out, 'I');
        m = m - 1;
    }
    assert(out@ =~= out@ + roman_letters(0));
    out
}

/// The worth of one letter: X ten, V five, I one, anything else nothing.
pub open spec fn letter_value(c: char) -> int {
    if c == 'X' {
        10
    } else if c == 'V' {
        5
    } else if c == 'I' {
        1
    } else {
        0
    }
}

/// The sum of the worth of the letters of a text.
pub open spec fn roman_value(s: Seq<char>) -> int
    decreases s.len(),
{
    if s.len() == 0 {
        0
    } else {
        letter_value(s[0]) + roman_value(s.drop_first())
    }
}

proof fn lemma_letters_value(n: nat)
    ensures
        roman_value(roman_letters(n)) == n,
    decreases n,
{
    let s = roman_letters(n);
    if n >= 10 {
        lemma_letters_value((n - 10) as nat);
        assert(s.drop_first() =~= roman_letters((n - 10) as nat));
    } else if n >= 5 {
        lemma_letters_value((n - 5) as nat);
        assert(s.drop_first() =~= roman_letters((n - 5) as nat));
    } else if n >= 1 {
        lemma_letters_value((n - 1) as nat);
        assert(s.drop_first() =~= roman_letters((n - 1) as nat));
    }
}

/// Reading a generation's text back by the worth of its letters gives the number.
pub proof fn lemma_roman_value(n: nat)
    ensures
        roman_value(roman_text(n)) == n,
{
    if n == 0 {
        assert(seq!['N'].drop_first() =~= Seq::<char>::empty());
        assert(roman_value(Seq::<char>::empty()) == 0);
        assert(roman_value(seq!['N']) == letter_value('N') + roman_value(Seq::<char>::empty()));
    } else {
        lemma_letters_value(n);
    }
}

/// Two generation numbers with the same text are the same number.
pub proof fn lemma_roman_injective(a: nat, b: nat)
    requires
        roman_text(a) == roman_text(b),
    ensures
        a == b,
{
    lemma_roman_value(a);
    lemma_roman_value(b);
}

/// The largest generation number (exclusive) whose text is read back.
pub const ROMAN_LIMIT: i8 = 40;

/// The number below forty whose text is `s`, if there is one.
pub open spec fn roman_reading(s: Seq<char>) -> Option<int> {
    if exists|k: int| 0 <= k < ROMAN_LIMIT && #[trigger] roman_text(k as nat) == s {
        Some(choose|k: int| 0 <= k < ROMAN_LIMIT && #[trigger] roman_text(k as nat) == s)
    } else {
        None
    }
}

/// Reads the text of a generation number back, for numbers below forty,
/// by rendering each candidate and comparing texts.
pub fn from_roman(text: &str) -> (r: Option<i8>)
    ensures
        r matches Some(k) ==> roman_reading(text@) == Some(k as int),
        r is None ==> roman_reading(text@) is None,
{
    let t = String::from_str(text);
    let mut k: i8 = 0;
    while k < ROMAN_LIMIT
        invariant
            0 <= k <= ROMAN_LIMIT,
            t@ == text@,
            forall|j: int| 0 <= j < k ==> #[trigger] roman_text(j as nat) != text@,
        decreases ROMAN_LIMIT - k,
    {
        let candidate = roman(k);
        if candidate == t {
            proof {
                let c = choose|j: int| 0 <= j < ROMAN_LIMIT && #[trigger] roman_text(j as nat) == text@;
                lemma_roman_injective(c as nat, k as nat);
            }
            return Some(k);
        }
        k = k + 1;
    }
    None
}

/// Reading back the text of a number below forty gives that number.
pub proof fn lemma_roman_round_trip(n: int)
    requires
        0 <= n < ROMAN_LIMIT,
    ensures
        roman_reading(roman_text(n as nat)) == Some(n),
{
    let s = roman_text(n as nat);
    assert(0 <= n < ROMAN_LIMIT && roman_text(n as nat) == s);
    let c = choose|j: int| 0 <= j < ROMAN_LIMIT && #[trigger] roman_text(j as nat) == s;
    lemma_roman_injective(c as nat, n as nat);
}

} // verus!
