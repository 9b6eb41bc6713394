use vstd::prelude::*;

verus! {

/// A white-space character in the sense of Unicode's `White_Space` property.
pub open spec fn is_space(c: char) -> bool {
    let u = c as u32;
    (0x09 <= u && u <= 0x0d) || u == 0x20 || u == 0x85 || u == 0xa0 || u == 0x1680 || (0x2000 <= u
        && u <= 0x200a) || u == 0x2028 || u == 0x2029 || u == 0x202f || u == 0x205f || u == 0x3000
}

/// A text that holds nothing but white space (the empty text included).
pub open spec fn is_blank_text(s: Seq<char>) -> bool {
    forall|i: int| 0 <= i < s.len() ==> is_space(#[trigger] s[i])
}

/// Tells whether a character is white space.
pub fn space_char(c: char) -> (r: bool)
    ensures
        r == is_space(c),
{
    let u = c as u32;
    (0x09 <= u && u <= 0x0d) || u == 0x20 || u == 0x85 || u == 0xa0 || u == 0x1680 || (0x2000 <= u
        && u <= 0x200a) || u == 0x2028 || u == 0x2029 || u == 0x202f || u == 0x205f || u == 0x3000
}

/// Tells whether a document is empty or white space only.
pub fn is_blank(s: &str) -> (r: bool)
    ensures
        r == is_blank_text(s@),
{
    let n = s.unicode_len();
    let mut i: usize = 0;
    while i < n
        invariant
            n == s@.len(),
            i <= n,
            forall|j: int| 0 <= j < i ==> is_space(#[trigger] s@[j]),
        decreases n - i,
    {
        if !space_char(s.get_char(i)) {
            return false;
        }
        i = i + 1;
    }
    true
}

/// A message with its trailing periods taken off.
pub open spec fn without_trailing_periods(s: Seq<char>) -> Seq<char>
    decreases s.len(),
{
    if s.len() > 0 && s.last() == '.' {
        without_trailing_periods(s.drop_last())
    } else {
        s
    }
}

/// Takes the trailing periods off a message.
pub fn strip_trailing_periods(s: &str) -> (r: String)
    ensures
        r@ == without_trailing_periods(s@),
{
    let mut k = s.unicode_len();
    assert(s@.take(k as int) =~= s@);
    while k > 0 && s.get_char(k - 1) == '.'
        invariant
            k <= s@.len(),
            without_trailing_periods(s@.take(k as int)) == without_trailing_periods(s@),
        decreases k,
    {
        assert(s@.take(k as int).drop_last() =~= s@.take(k - 1));
        k = k - 1;
    }
    assert(s@.take(k as int) =~= s@.subrange(0, k as int));
    s.substring_char(0, k).to_owned()
}

/// The decimal digit for a value under ten.
pub open spec fn digit(d: nat) -> char {
    seq!['0', '1', '2', '3', '4', '5', '6', '7', '8', '9'][d as int]
}

/// The decimal notation of a number, without leading zeros.
pub open spec fn decimal(n: nat) -> Seq<char>
    decreases n,
{
    if n < 10 {
        seq![digit(n)]
    } else {
        decimal(n / 10).push(digit(n % 10))
    }
}

/// Writes a number in decimal notation.
pub fn decimal_text(n: usize) -> (r: String)
    ensures
        r@ == decimal(n as nat),
    decreases n,
{
    let digits = "0123456789";
    proof {
        reveal_strlit("0123456789");
    }
    let d = n % 10;
    let one = digits.substring_char(d, d + 1);
    assert(one@ =~= seq![digit(d as nat)]);
    if n < 10 {
        one.to_owned()
    } else {
        let mut r = decimal_text(n / 10);
        r.append(one);
        assert(r@ =~= decimal(n as nat));
        r
    }
}

} // verus!
