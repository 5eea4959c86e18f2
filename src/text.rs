use vstd::prelude::*;

verus! {

/// Relies on `String::push`: the character is appended at the end.
#[verifier::external_body]
pub(crate) fn push_char(s: &mut String, c: char)
    ensures
        final(s)@ == old(s)@.push(c),
{
    s.push(c);
}

/// Characters with the Unicode `White_Space` property.
pub open spec fn is_ws(c: char) -> bool {
    ||| '\t' <= c <= '\r'
    ||| c == ' '
    ||| c == '\u{85}'
    ||| c == '\u{A0}'
    ||| c == '\u{1680}'
    ||| '\u{2000}' <= c <= '\u{200A}'
    ||| c == '\u{2028}'
    ||| c == '\u{2029}'
    ||| c == '\u{202F}'
    ||| c == '\u{205F}'
    ||| c == '\u{3000}'
}

pub fn is_whitespace(c: char) -> (r: bool)
    ensures
        r == is_ws(c),
{
    ('\t' <= c && c <= '\r') || c == ' ' || c == '\u{85}' || c == '\u{A0}' || c == '\u{1680}'
        || ('\u{2000}' <= c && c <= '\u{200A}') || c == '\u{2028}' || c == '\u{2029}'
        || c == '\u{202F}' || c == '\u{205F}' || c == '\u{3000}'
}

/// Every character of the text is ASCII and below DEL (0x7F).
pub open spec fn plain_ascii(s: Seq<char>) -> bool {
    forall|i: int| 0 <= i < s.len() ==> ((#[trigger] s[i]) as u32) < 0x7F
}

pub open spec fn upper_char(c: char) -> char {
    if 'a' <= c <= 'z' {
        ((c as u8) - 32) as u8 as char
    } else {
        c
    }
}

pub open spec fn lower_char(c: char) -> char {
    if 'A' <= c <= 'Z' {
        ((c as u8) + 32) as u8 as char
    } else {
        c
    }
}

/// ASCII letters turned to upper case; every other character kept.
pub open spec fn upper(s: Seq<char>) -> Seq<char> {
    Seq::new(s.len(), |i: int| upper_char(s[i]))
}

/// ASCII letters turned to lower case; every other character kept.
pub open spec fn lower(s: Seq<char>) -> Seq<char> {
    Seq::new(s.len(), |i: int| lower_char(s[i]))
}

/// The words of a text read so far: the finished ones, and the one being read.
pub open spec fn scan_words(s: Seq<char>) -> (Seq<Seq<char>>, Seq<char>)
    decreases s.len(),
{
    if s.len() == 0 {
        (Seq::empty(), Seq::empty())
    } else {
        let (done, cur) = scan_words(s.drop_last());
        if is_ws(s.last()) {
            if cur.len() > 0 {
                (done.push(cur), Seq::empty())
            } else {
                (done, cur)
            }
        } else {
            (done, cur.push(s.last()))
        }
    }
}

/// The maximal runs of non-whitespace characters of a text, in order.
pub open spec fn words(s: Seq<char>) -> Seq<Seq<char>> {
    let (done, cur) = scan_words(s);
    if cur.len() > 0 {
        done.push(cur)
    } else {
        done
    }
}

/// The text without its leading whitespace.
pub open spec fn trim_start(s: Seq<char>) -> Seq<char>
    decreases s.len(),
{
    if s.len() > 0 && is_ws(s[0]) {
        trim_start(s.drop_first())
    } else {
        s
    }
}

/// The text without its trailing whitespace.
pub open spec fn trim_end(s: Seq<char>) -> Seq<char>
    decreases s.len(),
{
    if s.len() > 0 && is_ws(s.last()) {
        trim_end(s.drop_last())
    } else {
        s
    }
}

pub open spec fn trim(s: Seq<char>) -> Seq<char> {
    trim_end(trim_start(s))
}

/// `needle` stands in `hay` from position `i` on.
pub open spec fn occurs_at(hay: Seq<char>, needle: Seq<char>, i: int) -> bool {
    0 <= i && i + needle.len() <= hay.len() && hay.subrange(i, i + needle.len()) == needle
}

pub open spec fn contains(hay: Seq<char>, needle: Seq<char>) -> bool {
    exists|i: int| occurs_at(hay, needle, i)
}

/// The views of a list of character vectors.
pub open spec fn views(v: Seq<Vec<char>>) -> Seq<Seq<char>> {
    v.map_values(|w: Vec<char>| w@)
}

/// The characters of a text, one by one.
pub fn to_chars(s: &str) -> (r: Vec<char>)
    ensures
        r@ == s@,
{
    let n = s.unicode_len();
    let mut out: Vec<char> = Vec::new();
    let mut i: usize = 0;
    while i < n
        invariant
            n == s@.len(),
            i <= n,
            out@ == s@.take(i as int),
        decreases n - i,
    {
        out.push(s.get_char(i));
        i = i + 1;
        assert(out@ =~= s@.take(i as int));
    }
    assert(out@ =~= s@);
    out
}

/// Appends characters to a text.
pub fn push_chars(out: &mut String, v: &[char])
    ensures
        final(out)@ == old(out)@ + v@,
{
    let mut i: usize = 0;
    while i < v.len()
        invariant
            i <= v@.len(),
            out@ == old(out)@ + v@.take(i as int),
        decreases v.len() - i,
    {
        push_char(out, v[i]);
        i = i + 1;
        assert(out@ =~= old(out)@ + v@.take(i as int));
    }
    assert(v@.take(v@.len() as int) =~= v@);
}

/// A text made of the given characters.
pub fn string_of(v: &[char]) -> (r: String)
    ensures
        r@ == v@,
{
    let mut out = String::new();
    push_chars(&mut out, v);
    assert(out@ =~= v@);
    out
}

pub fn to_upper(v: &[char]) -> (r: Vec<char>)
    ensures
        r@ == upper(v@),
{
    let mut out: Vec<char> = Vec::new();
    let mut i: usize = 0;
    while i < v.len()
        invariant
            i <= v@.len(),
            out@ == upper(v@.take(i as int)),
        decreases v.len() - i,
    {
        let c = v[i];
        let u = if 'a' <= c && c <= 'z' {
            ((c as u8) - 32) as char
        } else {
            c
        };
        out.push(u);
        i = i + 1;
        assert(out@ =~= upper(v@.take(i as int)));
    }
    assert(v@.take(v@.len() as int) =~= v@);
    out
}

/// Splits a text into its words: the maximal runs of non-whitespace characters.
pub fn split_words(s: &[char]) -> (r: Vec<Vec<char>>)
    ensures
        views(r@) == words(s@),
{
    let mut done: Vec<Vec<char>> = Vec::new();
    let mut cur: Vec<char> = Vec::new();
    let mut i: usize = 0;
    while i < s.len()
        invariant
            i <= s@.len(),
            scan_words(s@.take(i as int)) == (views(done@), cur@),
        decreases s.len() - i,
    {
        let c = s[i];
        assert(s@.take(i + 1).drop_last() =~= s@.take(i as int));
        assert(s@.take(i + 1).last() == c);
        if is_whitespace(c) {
            if cur.len() > 0 {
                let ghost before = done@;
                let w = cur;
                done.push(w);
                cur = Vec::new();
                assert(done@.drop_last() =~= before);
                assert(views(done@) =~= views(before).push(w@));
            }
        } else {
            cur.push(c);
        }
        i = i + 1;
    }
    assert(s@.take(s@.len() as int) =~= s@);
    if cur.len() > 0 {
        let ghost before = done@;
        let w = cur;
        done.push(w);
        assert(done@.drop_last() =~= before);
        assert(views(done@) =~= views(before).push(w@));
    }
    done
}

/// The characters of `s` from `a` up to `b`.
pub fn slice_chars(s: &[char], a: usize, b: usize) -> (r: Vec<char>)
    requires
        a <= b <= s@.len(),
    ensures
        r@ == s@.subrange(a as int, b as int),
{
    let mut out: Vec<char> = Vec::new();
    let mut i: usize = a;
    while i < b
        invariant
            a <= i <= b <= s@.len(),
            out@ == s@.subrange(a as int, i as int),
        decreases b - i,
    {
        out.push(s[i]);
        i = i + 1;
        assert(out@ =~= s@.subrange(a as int, i as int));
    }
    out
}

/// The text without leading and trailing whitespace.
pub fn trim_chars(s: &[char]) -> (r: Vec<char>)
    ensures
        r@ == trim(s@),
{
    let n = s.len();
    let mut a: usize = 0;
    assert(s@.subrange(0, n as int) =~= s@);
    while a < n && is_whitespace(s[a])
        invariant
            a <= n == s@.len(),
            trim_start(s@.subrange(a as int, n as int)) == trim_start(s@),
        decreases n - a,
    {
        assert(s@.subrange(a as int, n as int).drop_first() =~= s@.subrange(a + 1, n as int));
        a = a + 1;
    }
    assert(s@.subrange(0, n as int) =~= s@);
    let mut b: usize = n;
    while b > a && is_whitespace(s[b - 1])
        invariant
            a <= b <= n == s@.len(),
            trim_start(s@) == s@.subrange(a as int, n as int),
            trim_end(s@.subrange(a as int, b as int)) == trim(s@),
        decreases b,
    {
        assert(s@.subrange(a as int, b as int).drop_last() =~= s@.subrange(a as int, b - 1));
        b = b - 1;
    }
    slice_chars(s, a, b)
}

/// Whether `needle` stands somewhere in `hay`.
pub fn find_in(hay: &[char], needle: &[char]) -> (r: bool)
    ensures
        r == contains(hay@, needle@),
{
    let h = hay.len();
    let m = needle.len();
    if m > h {
        assert forall|k: int| !occurs_at(hay@, needle@, k) by { }
        return false;
    }
    if m == 0 {
        assert(hay@.subrange(0, 0) =~= needle@);
        assert(occurs_at(hay@, needle@, 0));
        return true;
    }
    let mut i: usize = 0;
    while i <= h - m
        invariant
            1 <= m <= h,
            h == hay@.len(),
            m == needle@.len(),
            forall|k: int| 0 <= k < i ==> !occurs_at(hay@, needle@, k),
        decreases h - m + 1 - i,
    {
        let mut j: usize = 0;
        let mut same = true;
        while j < m && same
            invariant
                m <= h,
                h == hay@.len(),
                m == needle@.len(),
                i + m <= h,
                j <= m,
                same ==> forall|l: int| 0 <= l < j ==> hay@[i + l] == needle@[l],
                !same ==> !occurs_at(hay@, needle@, i as int),
            decreases m - j + if same { 1int } else { 0int },
        {
            if hay[i + j] != needle[j] {
                assert(hay@.subrange(i as int, i + m)[j as int] == hay@[i + j]);
                same = false;
            } else {
                j = j + 1;
            }
        }
        if same {
            assert(hay@.subrange(i as int, i + m) =~= needle@);
            assert(occurs_at(hay@, needle@, i as int));
            return true;
        }
        i = i + 1;
    }
    assert forall|k: int| !occurs_at(hay@, needle@, k) by {
        if occurs_at(hay@, needle@, k) {
            assert(k < i);
        }
    }
    false
}

pub open spec fn is_digit(c: char) -> bool {
    '0' <= c <= '9'
}

pub open spec fn digit_value(c: char) -> int {
    c as int - '0' as int
}

pub open spec fn digit_char(d: nat) -> char {
    (d + 48) as u8 as char
}

/// The number that a run of decimal digits spells.
pub open spec fn digits_value(s: Seq<char>) -> int
    decreases s.len(),
{
    if s.len() == 0 {
        0
    } else {
        10 * digits_value(s.drop_last()) + digit_value(s.last())
    }
}

pub open spec fn all_digits(s: Seq<char>) -> bool {
    forall|i: int| 0 <= i < s.len() ==> is_digit(#[trigger] s[i])
}

/// The decimal digits of a natural number, most significant first.
pub open spec fn decimal_digits(n: nat) -> Seq<char>
    decreases n,
{
    if n < 10 {
        seq![digit_char(n)]
    } else {
        decimal_digits(n / 10).push(digit_char(n % 10))
    }
}

/// A number written in decimal, with `-` in front when negative.
pub open spec fn decimal(n: int) -> Seq<char> {
    if n < 0 {
        seq!['-'] + decimal_digits((-n) as nat)
    } else {
        decimal_digits(n as nat)
    }
}

/// The value of an optionally signed run of one or more decimal digits.
pub open spec fn signed_value(w: Seq<char>) -> Option<int> {
    if w.len() > 0 && (w[0] == '-' || w[0] == '+') {
        let d = w.drop_first();
        if d.len() > 0 && all_digits(d) {
            Some(if w[0] == '-' { -digits_value(d) } else { digits_value(d) })
        } else {
            None
        }
    } else if w.len() > 0 && all_digits(w) {
        Some(digits_value(w))
    } else {
        None
    }
}

proof fn lemma_digits_value_grows(s: Seq<char>)
    requires
        s.len() > 0,
        all_digits(s),
    ensures
        digits_value(s) >= digits_value(s.drop_last()) >= 0,
    decreases s.len(),
{
    if s.len() > 1 {
        lemma_digits_value_grows(s.drop_last());
    } else {
        assert(s.drop_last().len() == 0);
    }
}

/// The magnitude above which `scan_number` stops counting.
pub const NUMBER_CAP: u32 = 1000;

proof fn lemma_zeros_value(s: Seq<char>)
    requires
        forall|i: int| 0 <= i < s.len() ==> #[trigger] s[i] == '0',
    ensures
        digits_value(s) == 0,
    decreases s.len(),
{
    if s.len() > 0 {
        lemma_zeros_value(s.drop_last());
    }
}

proof fn lemma_leading_zeros(d: Seq<char>, k: int, j: int)
    requires
        0 <= k <= j <= d.len(),
        forall|i: int| 0 <= i < k ==> #[trigger] d[i] == '0',
    ensures
        digits_value(d.take(j)) == digits_value(d.subrange(k, j)),
    decreases j - k,
{
    if j == k {
        lemma_zeros_value(d.take(k));
        assert(d.subrange(k, k) =~= Seq::<char>::empty());
    } else {
        lemma_leading_zeros(d, k, j - 1);
        assert(d.take(j).drop_last() =~= d.take(j - 1));
        assert(d.subrange(k, j).drop_last() =~= d.subrange(k, j - 1));
    }
}

proof fn lemma_positive_value(s: Seq<char>)
    requires
        s.len() > 0,
        all_digits(s),
        s[0] != '0',
    ensures
        digits_value(s) >= 1,
    decreases s.len(),
{
    assert(is_digit(s.last()));
    if s.len() == 1 {
        assert(s.drop_last().len() == 0);
        assert(digits_value(s.drop_last()) == 0);
        assert(s.last() == s[0]);
    } else {
        let t = s.drop_last();
        assert(t[0] == s[0]);
        assert forall|k: int| 0 <= k < t.len() implies is_digit(#[trigger] t[k]) by {
            assert(t[k] == s[k]);
        }
        lemma_positive_value(t);
    }
}

/// A run of digits with no leading zero (or the single digit `0`) is the
/// decimal spelling of its value.
pub proof fn lemma_decimal_of_digits(s: Seq<char>)
    requires
        s.len() > 0,
        all_digits(s),
        s[0] != '0' || s.len() == 1,
    ensures
        digits_value(s) >= 0,
        decimal_digits(digits_value(s) as nat) == s,
    decreases s.len(),
{
    let v = digits_value(s);
    let c = s.last();
    assert(is_digit(c));
    assert(digit_char(digit_value(c) as nat) == c);
    if s.len() == 1 {
        assert(s.drop_last().len() == 0);
        assert(digits_value(s.drop_last()) == 0);
        assert(v == digit_value(c));
        assert(decimal_digits(v as nat) == seq![digit_char(v as nat)]);
        assert(seq![c] =~= s);
    } else {
        let t = s.drop_last();
        assert(t[0] == s[0]);
        assert forall|k: int| 0 <= k < t.len() implies is_digit(#[trigger] t[k]) by {
            assert(t[k] == s[k]);
        }
        lemma_positive_value(t);
        lemma_decimal_of_digits(t);
        let u = digits_value(t);
        let e = digit_value(c);
        assert(v == 10 * u + e);
        assert(v / 10 == u && v % 10 == e) by (nonlinear_arith)
            requires
                v == 10 * u + e,
                0 <= e < 10,
                u >= 1,
        ;
        assert(t.push(c) =~= s);
    }
}

/// Reads a word as a signed integer of any size: whether it is negative,
/// where its digits start once leading zeros are skipped, and its magnitude
/// (one more than `NUMBER_CAP` when above it).
pub fn scan_number(w: &[char]) -> (r: Option<(bool, usize, u32)>)
    ensures
        r is None ==> signed_value(w@) is None,
        r matches Some((negative, z, m)) ==> {
            let n = signed_value(w@)->0;
            let a = if n < 0 { -n } else { n };
            &&& signed_value(w@) is Some
            &&& negative == (n < 0)
            &&& z <= w@.len()
            &&& w@.subrange(z as int, w@.len() as int) == decimal_digits(a as nat)
            &&& m as int == if a <= NUMBER_CAP { a } else { NUMBER_CAP + 1 }
        },
{
    let n = w.len();
    if n == 0 {
        return None;
    }
    let minus = w[0] == '-';
    let start: usize = if w[0] == '-' || w[0] == '+' { 1 } else { 0 };
    if start == n {
        return None;
    }
    let ghost d = w@.subrange(start as int, n as int);
    assert(start == 1 ==> d =~= w@.drop_first());
    assert(start == 0 ==> d =~= w@);
    let mut i: usize = start;
    while i < n
        invariant
            start <= i <= n == w@.len(),
            start < n,
            d == w@.subrange(start as int, n as int),
            start == 1 ==> d == w@.drop_first(),
            start == 0 ==> d == w@,
            (start == 1) == (w@[0] == '-' || w@[0] == '+'),
            minus == (w@[0] == '-'),
            forall|k: int| start <= k < i ==> is_digit(#[trigger] w@[k]),
        decreases n - i,
    {
        if !('0' <= w[i] && w[i] <= '9') {
            assert(!is_digit(d[i - start]));
            return None;
        }
        i = i + 1;
    }
    assert(all_digits(d)) by {
        assert forall|k: int| 0 <= k < d.len() implies is_digit(#[trigger] d[k]) by {
            assert(d[k] == w@[start + k]);
        }
    }
    let mut z: usize = start;
    while z + 1 < n && w[z] == '0'
        invariant
            start <= z < n == w@.len(),
            forall|k: int| start <= k < z ==> #[trigger] w@[k] == '0',
        decreases n - z,
    {
        z = z + 1;
    }
    let ghost s = w@.subrange(z as int, n as int);
    proof {
        assert forall|k: int| 0 <= k < z - start implies #[trigger] d[k] == '0' by {
            assert(d[k] == w@[start + k]);
        }
        lemma_leading_zeros(d, z - start, d.len() as int);
        assert(d.take(d.len() as int) =~= d);
        assert(d.subrange(z - start, d.len() as int) =~= s);
        assert(all_digits(s)) by {
            assert forall|k: int| 0 <= k < s.len() implies is_digit(#[trigger] s[k]) by {
                assert(s[k] == d[z - start + k]);
            }
        }
        assert(s[0] == w@[z as int]);
        lemma_decimal_of_digits(s);
    }
    let mut acc: u32 = 0;
    let mut over = false;
    let mut j: usize = z;
    while j < n
        invariant
            z <= j <= n == w@.len(),
            s == w@.subrange(z as int, n as int),
            all_digits(s),
            !over ==> acc <= NUMBER_CAP && acc == digits_value(w@.subrange(z as int, j as int)),
            over ==> digits_value(w@.subrange(z as int, j as int)) > NUMBER_CAP,
        decreases n - j,
    {
        let c = w[j];
        let ghost t = w@.subrange(z as int, j + 1);
        assert(t.drop_last() =~= w@.subrange(z as int, j as int));
        assert(t.last() == s[j - z]);
        assert(all_digits(t)) by {
            assert forall|k: int| 0 <= k < t.len() implies is_digit(#[trigger] t[k]) by {
                assert(t[k] == s[k]);
            }
        }
        proof {
            lemma_digits_value_grows(t);
        }
        if !over {
            let next = acc * 10 + ((c as u32) - ('0' as u32));
            if next > NUMBER_CAP {
                over = true;
            } else {
                acc = next;
            }
        }
        j = j + 1;
    }
    let negative = minus && (over || acc > 0);
    let m = if over { NUMBER_CAP + 1 } else { acc };
    Some((negative, z, m))
}

/// A word of one character, a space, then a word: the two words.
pub proof fn lemma_words_of_pair(c: char, k: Seq<char>)
    requires
        !is_ws(c),
        k.len() > 0,
        forall|i: int| 0 <= i < k.len() ==> !is_ws(#[trigger] k[i]),
    ensures
        words(seq![c, ' '] + k) == seq![seq![c], k],
{
    let p = seq![c, ' '];
    assert(seq![c].drop_last() =~= Seq::<char>::empty());
    assert(Seq::<char>::empty().push(c) =~= seq![c]);
    lemma_scan_one(c);
    assert(scan_words(seq![c]) == (Seq::<Seq<char>>::empty(), seq![c]));
    assert(p.drop_last() =~= seq![c]);
    assert(scan_words(p) == (seq![seq![c]], Seq::<char>::empty()));
    assert forall|j: int| 0 <= j <= k.len() implies scan_words(#[trigger] (p + k.take(j))) == (seq![seq![c]], k.take(j)) by {
        lemma_scan_after_space(c, k, j);
    }
    assert(k.take(k.len() as int) =~= k);
}

proof fn lemma_scan_one(c: char)
    requires
        !is_ws(c),
    ensures
        scan_words(seq![c]) == (Seq::<Seq<char>>::empty(), seq![c]),
{
    let s = seq![c];
    assert(s.drop_last() =~= Seq::<char>::empty());
    assert(scan_words(Seq::<char>::empty()) == (Seq::<Seq<char>>::empty(), Seq::<char>::empty()));
    assert(s.last() == c);
    assert(scan_words(s) == (Seq::<Seq<char>>::empty(), Seq::<char>::empty().push(c)));
    assert(Seq::<char>::empty().push(c) =~= s);
}

proof fn lemma_scan_after_space(c: char, k: Seq<char>, j: int)
    requires
        !is_ws(c),
        0 <= j <= k.len(),
        forall|i: int| 0 <= i < k.len() ==> !is_ws(#[trigger] k[i]),
    ensures
        scan_words(seq![c, ' '] + k.take(j)) == (seq![seq![c]], k.take(j)),
    decreases j,
{
    let p = seq![c, ' '];
    if j == 0 {
        assert(seq![c].drop_last() =~= Seq::<char>::empty());
        lemma_scan_one(c);
        assert(scan_words(seq![c]) == (Seq::<Seq<char>>::empty(), seq![c]));
        assert(p.drop_last() =~= seq![c]);
        assert(p + k.take(0) =~= p);
    } else {
        lemma_scan_after_space(c, k, j - 1);
        assert((p + k.take(j)).drop_last() =~= p + k.take(j - 1));
        assert((p + k.take(j)).last() == k[j - 1]);
        assert(k.take(j - 1).push(k[j - 1]) =~= k.take(j));
    }
}

/// Turning a text to lower case and back to upper case is the same as
/// turning it to upper case.
pub proof fn lemma_upper_of_lower(s: Seq<char>)
    ensures
        upper(lower(s)) == upper(s),
        plain_ascii(s) ==> plain_ascii(lower(s)),
{
    assert(upper(lower(s)) =~= upper(s));
}

pub proof fn lemma_digit_char(n: nat)
    requires
        n < 10,
    ensures
        is_digit(digit_char(n)),
        digit_value(digit_char(n)) == n,
        !is_ws(digit_char(n)),
{
}

} // verus!
