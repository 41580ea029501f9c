use vstd::prelude::*;

verus! {

/// Number of hexadecimal digits in a submission identifier.
pub const ID_DIGITS: usize = 16;

/// `pre` is a textual prefix of `s`.
pub open spec fn has_prefix(s: Seq<char>, pre: Seq<char>) -> bool {
    pre.len() <= s.len() && s.take(pre.len() as int) == pre
}

/// The lower-case hexadecimal digit for `d < 16`.
pub open spec fn hex_char(d: nat) -> char {
    if d == 0 { '0' } else if d == 1 { '1' } else if d == 2 { '2' } else if d == 3 { '3' }
    else if d == 4 { '4' } else if d == 5 { '5' } else if d == 6 { '6' } else if d == 7 { '7' }
    else if d == 8 { '8' } else if d == 9 { '9' } else if d == 10 { 'a' } else if d == 11 { 'b' }
    else if d == 12 { 'c' } else if d == 13 { 'd' } else if d == 14 { 'e' } else { 'f' }
}

/// `n` written with exactly `width` hexadecimal digits (the high digits
/// beyond `width` are dropped).
pub open spec fn hex_text(n: nat, width: nat) -> Seq<char>
    decreases width,
{
    if width == 0 {
        Seq::empty()
    } else {
        hex_text(n / 16, (width - 1) as nat).push(hex_char(n % 16))
    }
}

/// How many values `width` hexadecimal digits can tell apart.
pub open spec fn hex_capacity(width: nat) -> nat
    decreases width,
{
    if width == 0 {
        1
    } else {
        16 * hex_capacity((width - 1) as nat)
    }
}

pub proof fn lemma_hex_text_len(n: nat, width: nat)
    ensures
        hex_text(n, width).len() == width,
    decreases width,
{
    if width > 0 {
        lemma_hex_text_len(n / 16, (width - 1) as nat);
    }
}

/// Two numbers below the capacity of `width` digits have the same text only
/// if they are equal.
pub proof fn lemma_hex_text_injective(a: nat, b: nat, width: nat)
    requires
        a < hex_capacity(width),
        b < hex_capacity(width),
        hex_text(a, width) == hex_text(b, width),
    ensures
        a == b,
    decreases width,
{
    if width > 0 {
        let w = (width - 1) as nat;
        let ta = hex_text(a / 16, w);
        let tb = hex_text(b / 16, w);
        assert(ta.push(hex_char(a % 16)) == tb.push(hex_char(b % 16)));
        lemma_hex_text_len(a / 16, w);
        lemma_hex_text_len(b / 16, w);
        assert(ta.push(hex_char(a % 16)).last() == hex_char(a % 16));
        assert(tb.push(hex_char(b % 16)).last() == hex_char(b % 16));
        assert(a % 16 == b % 16);
        assert(ta =~= ta.push(hex_char(a % 16)).drop_last());
        assert(tb =~= tb.push(hex_char(b % 16)).drop_last());
        assert(a / 16 < hex_capacity(w)) by (nonlinear_arith)
            requires
                a < 16 * hex_capacity(w),
        ;
        assert(b / 16 < hex_capacity(w)) by (nonlinear_arith)
            requires
                b < 16 * hex_capacity(w),
        ;
        lemma_hex_text_injective(a / 16, b / 16, w);
        assert(a == 16 * (a / 16) + a % 16) by (nonlinear_arith);
        assert(b == 16 * (b / 16) + b % 16) by (nonlinear_arith);
    }
}

/// Every `u64` fits in [`ID_DIGITS`] hexadecimal digits.
pub proof fn lemma_u64_fits_id_digits(n: u64)
    ensures
        (n as nat) < hex_capacity(ID_DIGITS as nat),
{
    reveal_with_fuel(hex_capacity, 17);
    assert(hex_capacity(16) == 0x1_0000_0000_0000_0000nat);
}

/// The one-character text of the hexadecimal digit `d`.
fn hex_digit_text(d: u64) -> (r: &'static str)
    requires
        d < 16,
    ensures
        r@ == seq![hex_char(d as nat)],
{
    if d == 0 { proof { reveal_strlit("0"); } "0" }
    else if d == 1 { proof { reveal_strlit("1"); } "1" }
    else if d == 2 { proof { reveal_strlit("2"); } "2" }
    else if d == 3 { proof { reveal_strlit("3"); } "3" }
    else if d == 4 { proof { reveal_strlit("4"); } "4" }
    else if d == 5 { proof { reveal_strlit("5"); } "5" }
    else if d == 6 { proof { reveal_strlit("6"); } "6" }
    else if d == 7 { proof { reveal_strlit("7"); } "7" }
    else if d == 8 { proof { reveal_strlit("8"); } "8" }
    else if d == 9 { proof { reveal_strlit("9"); } "9" }
    else if d == 10 { proof { reveal_strlit("a"); } "a" }
    else if d == 11 { proof { reveal_strlit("b"); } "b" }
    else if d == 12 { proof { reveal_strlit("c"); } "c" }
    else if d == 13 { proof { reveal_strlit("d"); } "d" }
    else if d == 14 { proof { reveal_strlit("e"); } "e" }
    else { proof { reveal_strlit("f"); } "f" }
}

/// Writes `n` with exactly `width` lower-case hexadecimal digits.
pub fn hex_digits(n: u64, width: usize) -> (r: String)
    ensures
        r@ == hex_text(n as nat, width as nat),
    decreases width,
{
    if width == 0 {
        String::new()
    } else {
        let mut s = hex_digits(n / 16, width - 1);
        let d = hex_digit_text(n % 16);
        s.append(d);
        s
    }
}

/// Whether `pre` is a textual prefix of `s`.
pub fn starts_with(s: &str, pre: &str) -> (r: bool)
    ensures
        r == has_prefix(s@, pre@),
{
    let n = pre.unicode_len();
    let len = s.unicode_len();
    if n > len {
        return false;
    }
    let mut i: usize = 0;
    while i < n
        invariant
            n == pre@.len(),
            len == s@.len(),
            n <= len,
            i <= n,
            forall|j: int| 0 <= j < i ==> s@[j] == pre@[j],
        decreases n - i,
    {
        if s.get_char(i) != pre.get_char(i) {
            assert(s@.take(n as int)[i as int] != pre@[i as int]);
            return false;
        }
        i = i + 1;
    }
    assert(s@.take(n as int) =~= pre@);
    true
}

/// `s` followed by the character `c`, where `c_text` is the one-character
/// text of `c`.
pub fn push_text(s: &String, c_text: &str) -> (r: String)
    ensures
        r@ == s@ + c_text@,
{
    let mut r = s.clone();
    r.append(c_text);
    r
}

} // verus!
