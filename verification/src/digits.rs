//! Decimal numerals: the wire form of the integer fields (`msg_id`,
//! `in_reply_to`, `id`) and the facts that make reading them back exact.

use vstd::prelude::*;

verus! {

/// Whether `c` is a decimal digit.
pub open spec fn is_digit(c: char) -> bool {
    48 <= c as u32 <= 57
}

/// The digit character of value `d`.
pub open spec fn digit_char(d: int) -> char
    recommends
        0 <= d < 10,
{
    ((48 + d) as u8) as char
}

/// The numeric value of a digit character.
pub open spec fn digit_val(c: char) -> int {
    c as u32 - 48
}

/// The decimal numeral of `n`: most significant digit first, no leading
/// zeros (zero itself is the single digit `0`).
pub open spec fn dec_chars(n: int) -> Seq<char>
    recommends
        0 <= n,
    decreases n,
{
    if n < 10 {
        seq![digit_char(n)]
    } else {
        dec_chars(n / 10).push(digit_char(n % 10))
    }
}

/// The value of a digit string, most significant digit first.
pub open spec fn val_of(ds: Seq<char>) -> int
    decreases ds.len(),
{
    if ds.len() == 0 {
        0
    } else {
        val_of(ds.drop_last()) * 10 + digit_val(ds.last())
    }
}

/// The numeral of `n` is non-empty, consists of digits, has no leading zero
/// unless it is `0` itself, and reads back as `n`.
pub proof fn lemma_dec_chars_props(n: int)
    requires
        0 <= n,
    ensures
        dec_chars(n).len() >= 1,
        forall|i: int| 0 <= i < dec_chars(n).len() ==> is_digit(#[trigger] dec_chars(n)[i]),
        val_of(dec_chars(n)) == n,
        n >= 1 ==> dec_chars(n)[0] != digit_char(0),
        n < 10 ==> dec_chars(n).len() == 1,
    decreases n,
{
    if n < 10 {
        let ds = dec_chars(n);
        assert(ds == seq![digit_char(n)]);
        assert(ds.len() == 1);
        assert(ds.drop_last() =~= Seq::<char>::empty());
        assert(digit_char(n) as u32 == 48 + n);
        assert(ds.last() == digit_char(n));
        assert(val_of(Seq::<char>::empty()) == 0);
        assert(val_of(ds) == val_of(ds.drop_last()) * 10 + digit_val(ds.last()));
        assert(val_of(ds) == n);
        if n >= 1 {
            assert(digit_char(n) as u32 != digit_char(0) as u32);
        }
    } else {
        lemma_dec_chars_props(n / 10);
        let head = dec_chars(n / 10);
        let d = digit_char(n % 10);
        let ds = dec_chars(n);
        assert(ds == head.push(d));
        assert(ds.drop_last() =~= head);
        assert(ds.last() == d);
        assert(0 <= n % 10 < 10);
        assert(d as u32 == 48 + n % 10);
        assert(val_of(ds) == (n / 10) * 10 + n % 10);
        assert(n == (n / 10) * 10 + n % 10);
        assert(ds[0] == head[0]);
        assert forall|i: int| 0 <= i < ds.len() implies is_digit(#[trigger] ds[i]) by {
            if i < head.len() {
                assert(ds[i] == head[i]);
            } else {
                assert(ds[i] == d);
            }
        }
    }
}

/// A digit string has a non-negative value.
pub proof fn lemma_val_of_nonneg(ds: Seq<char>)
    requires
        forall|i: int| 0 <= i < ds.len() ==> is_digit(#[trigger] ds[i]),
    ensures
        val_of(ds) >= 0,
    decreases ds.len(),
{
    if ds.len() > 0 {
        let head = ds.drop_last();
        assert(forall|i: int| 0 <= i < head.len() ==> is_digit(#[trigger] head[i]));
        lemma_val_of_nonneg(head);
        assert(is_digit(ds.last()));
    }
}

/// Dropping digits from the right of a digit string cannot grow its value.
pub proof fn lemma_val_of_prefix(ds: Seq<char>, k: int)
    requires
        forall|i: int| 0 <= i < ds.len() ==> is_digit(#[trigger] ds[i]),
        0 <= k <= ds.len(),
    ensures
        val_of(ds.take(k)) <= val_of(ds),
    decreases ds.len() - k,
{
    if k == ds.len() {
        assert(ds.take(k) =~= ds);
    } else {
        let head = ds.take(ds.len() - 1);
        assert(head =~= ds.drop_last());
        assert(forall|i: int| 0 <= i < head.len() ==> is_digit(#[trigger] head[i]));
        lemma_val_of_nonneg(head);
        assert(is_digit(ds.last()));
        assert(val_of(head) <= val_of(head) * 10 + digit_val(ds.last()));
        assert(val_of(head) <= val_of(ds));
        assert(ds.take(k) =~= head.take(k));
        lemma_val_of_prefix(head, k);
    }
}

/// The single-character string of digit value `d`.
fn digit_str(d: usize) -> (r: &'static str)
    requires
        d < 10,
    ensures
        r@ == seq![digit_char(d as int)],
{
    proof {
        reveal_strlit("0");
        reveal_strlit("1");
        reveal_strlit("2");
        reveal_strlit("3");
        reveal_strlit("4");
        reveal_strlit("5");
        reveal_strlit("6");
        reveal_strlit("7");
        reveal_strlit("8");
        reveal_strlit("9");
    }
    match d {
        0 => "0",
        1 => "1",
        2 => "2",
        3 => "3",
        4 => "4",
        5 => "5",
        6 => "6",
        7 => "7",
        8 => "8",
        _ => "9",
    }
}

/// Writes `x` as its decimal numeral.
pub fn num_to_string(x: usize) -> (r: String)
    ensures
        r@ == dec_chars(x as int),
    decreases x,
{
    if x < 10 {
        let s = digit_str(x);
        String::from_str(s)
    } else {
        let mut s = num_to_string(x / 10);
        let d = digit_str(x % 10);
        s.append(d);
        proof {
            assert(s@ =~= dec_chars(x as int / 10).push(digit_char(x as int % 10)));
        }
        s
    }
}

} // verus!
