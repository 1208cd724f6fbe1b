//! Character-level building blocks of the rendered text: decimal numerals and
//! the names given to binder slots.

use vstd::prelude::*;

verus! {

/// The ten decimal digits, in order.
pub open spec fn digit_chars() -> Seq<char> {
    seq!['0', '1', '2', '3', '4', '5', '6', '7', '8', '9']
}

/// The twenty-six upper-case letters, in order.
pub open spec fn letter_chars() -> Seq<char> {
    seq![
        'A', 'B', 'C', 'D', 'E', 'F', 'G', 'H', 'I', 'J', 'K', 'L', 'M',
        'N', 'O', 'P', 'Q', 'R', 'S', 'T', 'U', 'V', 'W', 'X', 'Y', 'Z',
    ]
}

/// The decimal numeral of `n`, without leading zeros.
pub open spec fn decimal(n: nat) -> Seq<char>
    decreases n,
{
    if n < 10 {
        seq![digit_chars()[n as int]]
    } else {
        decimal(n / 10) + seq![digit_chars()[(n % 10) as int]]
    }
}

/// The display name of the binder slot at stack position `i` (0 = outermost):
/// a letter, followed by the numeral of the round when the alphabet has been
/// used up (`A`, ..., `Z`, `A1`, ..., `Z1`, `A2`, ...).
pub open spec fn binder_name(i: nat) -> Seq<char> {
    let round = i / 26;
    seq![letter_chars()[(i % 26) as int]] + if round == 0 {
        Seq::<char>::empty()
    } else {
        decimal(round)
    }
}

proof fn lemma_decimal_first_not_zero(n: nat)
    requires
        n >= 1,
    ensures
        decimal(n).len() >= 1,
        decimal(n)[0] != '0',
    decreases n,
{
    if n >= 10 {
        lemma_decimal_first_not_zero(n / 10);
    }
}

proof fn lemma_decimal_injective(a: nat, b: nat)
    requires
        decimal(a) == decimal(b),
    ensures
        a == b,
    decreases a,
{
    let da = decimal(a);
    let db = decimal(b);
    if a < 10 && b < 10 {
        assert(da[0] == db[0]);
    } else if a >= 10 && b >= 10 {
        let pa = decimal(a / 10);
        let pb = decimal(b / 10);
        assert(da.len() == pa.len() + 1);
        assert(pa =~= da.drop_last());
        assert(pb =~= db.drop_last());
        assert(da.last() == db.last());
        lemma_decimal_injective(a / 10, b / 10);
    } else {
        let (small, big) = if a < 10 { (a, b) } else { (b, a) };
        lemma_decimal_first_not_zero(big / 10);
        lemma_decimal_len_two(big);
        assert(decimal(small).len() == 1);
    }
}

proof fn lemma_decimal_len_two(n: nat)
    requires
        n >= 10,
    ensures
        decimal(n).len() >= 2,
{
    lemma_decimal_first_not_zero(n / 10);
}

/// Distinct binder slots get distinct names.
pub proof fn lemma_binder_names_distinct(i: nat, j: nat)
    requires
        i != j,
    ensures
        binder_name(i) != binder_name(j),
{
    if binder_name(i) == binder_name(j) {
        let ri = i / 26;
        let rj = j / 26;
        let ni = binder_name(i);
        let nj = binder_name(j);
        assert(ni[0] == nj[0]);
        assert(i % 26 == j % 26);
        if ri == 0 || rj == 0 {
            if ri != 0 {
                lemma_decimal_first_not_zero(ri);
                assert(ni.len() > 1);
            } else if rj != 0 {
                lemma_decimal_first_not_zero(rj);
                assert(nj.len() > 1);
            }
            assert(ri == rj);
        } else {
            assert(decimal(ri) =~= ni.drop_first());
            assert(decimal(rj) =~= nj.drop_first());
            lemma_decimal_injective(ri, rj);
        }
        assert(i == 26 * ri + i % 26);
        assert(j == 26 * rj + j % 26);
    }
}

/// Appends the numeral of digit `d`.
fn push_digit(out: &mut String, d: usize)
    requires
        d < 10,
    ensures
        final(out)@ == old(out)@ + seq![digit_chars()[d as int]],
{
    proof {
        reveal_strlit("0123456789");
    }
    let digits = "0123456789";
    assert(digits@ =~= digit_chars());
    let s = digits.substring_ascii(d, d + 1);
    assert(s@ =~= seq![digit_chars()[d as int]]);
    out.append(s);
}

/// Appends the decimal numeral of `n`.
pub fn push_decimal(out: &mut String, n: u64)
    ensures
        final(out)@ == old(out)@ + decimal(n as nat),
    decreases n,
{
    if n < 10 {
        push_digit(out, n as usize);
    } else {
        push_decimal(out, n / 10);
        push_digit(out, (n % 10) as usize);
        assert(final(out)@ =~= old(out)@ + decimal(n as nat));
    }
}

/// Appends the display name of the binder slot at stack position `i`.
pub fn push_binder_name(out: &mut String, i: usize)
    ensures
        final(out)@ == old(out)@ + binder_name(i as nat),
{
    proof {
        reveal_strlit("ABCDEFGHIJKLMNOPQRSTUVWXYZ");
    }
    let letters = "ABCDEFGHIJKLMNOPQRSTUVWXYZ";
    assert(letters@ =~= letter_chars());
    let k = i % 26;
    let s = letters.substring_ascii(k, k + 1);
    assert(s@ =~= seq![letter_chars()[k as int]]);
    out.append(s);
    let round = i / 26;
    if round != 0 {
        push_decimal(out, round as u64);
    }
    assert(final(out)@ =~= old(out)@ + binder_name(i as nat));
}

/// The sixteen lower-case hexadecimal digits, in order.
pub open spec fn hex_digit_chars() -> Seq<char> {
    seq!['0', '1', '2', '3', '4', '5', '6', '7', '8', '9', 'a', 'b', 'c', 'd', 'e', 'f']
}

/// The lower-case hexadecimal numeral of `n`, without leading zeros.
pub open spec fn hex(n: nat) -> Seq<char>
    decreases n,
{
    if n < 16 {
        seq![hex_digit_chars()[n as int]]
    } else {
        hex(n / 16) + seq![hex_digit_chars()[(n % 16) as int]]
    }
}

/// Appends the hexadecimal numeral of `n`.
pub fn push_hex(out: &mut String, n: u32)
    ensures
        final(out)@ == old(out)@ + hex(n as nat),
    decreases n,
{
    if n >= 16 {
        push_hex(out, n / 16);
    }
    let d = (n % 16) as usize;
    proof {
        reveal_strlit("0123456789abcdef");
    }
    let digits = "0123456789abcdef";
    assert(digits@ =~= hex_digit_chars());
    let s = digits.substring_ascii(d, d + 1);
    assert(s@ =~= seq![hex_digit_chars()[d as int]]);
    out.append(s);
    assert(final(out)@ =~= old(out)@ + hex(n as nat));
}

} // verus!
