//! Decimal rendering of identifiers: spec-level digit sequences and a
//! verified executable formatter.

use vstd::prelude::*;

verus! {

/// The character for one decimal digit value.
pub open spec fn digit_of(d: nat) -> char {
    if d == 0 { '0' }
    else if d == 1 { '1' }
    else if d == 2 { '2' }
    else if d == 3 { '3' }
    else if d == 4 { '4' }
    else if d == 5 { '5' }
    else if d == 6 { '6' }
    else if d == 7 { '7' }
    else if d == 8 { '8' }
    else { '9' }
}

/// The decimal digit string of `n`, most significant digit first,
/// with no leading zeros (a single `'0'` for zero).
pub open spec fn dec_of(n: nat) -> Seq<char>
    decreases n,
{
    if n < 10 {
        seq![digit_of(n)]
    } else {
        dec_of(n / 10).push(digit_of(n % 10))
    }
}

/// `c` is a decimal digit character.
pub open spec fn is_digit(c: char) -> bool {
    c == '0' || c == '1' || c == '2' || c == '3' || c == '4' || c == '5' || c == '6' || c == '7'
        || c == '8' || c == '9'
}

/// The value of one decimal digit character (0 for anything else).
pub open spec fn digit_val(c: char) -> nat {
    if c == '1' { 1 }
    else if c == '2' { 2 }
    else if c == '3' { 3 }
    else if c == '4' { 4 }
    else if c == '5' { 5 }
    else if c == '6' { 6 }
    else if c == '7' { 7 }
    else if c == '8' { 8 }
    else if c == '9' { 9 }
    else { 0 }
}

/// Every character of `s` is a decimal digit.
pub open spec fn all_digits(s: Seq<char>) -> bool {
    forall|i: int| 0 <= i < s.len() ==> is_digit(#[trigger] s[i])
}

/// The number that the digit string `s` denotes, most significant digit first.
pub open spec fn dec_val(s: Seq<char>) -> nat
    decreases s.len(),
{
    if s.len() == 0 {
        0
    } else {
        dec_val(s.drop_last()) * 10 + digit_val(s.last())
    }
}

/// The maximal digit prefix of `s`, and what follows it.
pub open spec fn take_digits(s: Seq<char>) -> (Seq<char>, Seq<char>)
    decreases s.len(),
{
    if s.len() > 0 && is_digit(s[0]) {
        let dr = take_digits(s.drop_first());
        (seq![s[0]] + dr.0, dr.1)
    } else {
        (Seq::<char>::empty(), s)
    }
}

/// Printing a number gives a nonempty digit string that denotes it back.
pub proof fn lemma_dec_of_val(n: nat)
    ensures
        dec_val(dec_of(n)) == n,
        all_digits(dec_of(n)),
        dec_of(n).len() >= 1,
    decreases n,
{
    if n < 10 {
        let d = dec_of(n);
        assert(d.drop_last().len() == 0);
        assert(dec_val(d.drop_last()) == 0);
        assert(d.last() == digit_of(n));
        assert(dec_val(d) == digit_val(digit_of(n)));
    } else {
        lemma_dec_of_val(n / 10);
        let d = dec_of(n);
        assert(d.drop_last() =~= dec_of(n / 10));
        assert(d.last() == digit_of(n % 10));
        assert(digit_val(digit_of(n % 10)) == n % 10);
        assert(dec_val(d) == (n / 10) * 10 + n % 10);
        assert forall|i: int| 0 <= i < d.len() implies is_digit(#[trigger] d[i]) by {
            if i < d.len() - 1 {
                assert(d[i] == dec_of(n / 10)[i]);
            }
        }
    }
}

/// The maximal digit prefix of a digit string followed by a non-digit (or by
/// nothing) is exactly that digit string.
pub proof fn lemma_take_digits_prepend(ds: Seq<char>, r: Seq<char>)
    requires
        all_digits(ds),
        r.len() == 0 || !is_digit(r[0]),
    ensures
        take_digits(ds + r) == (ds, r),
    decreases ds.len(),
{
    if ds.len() == 0 {
        assert(ds + r =~= r);
        if r.len() == 0 {
            assert(take_digits(r) == (Seq::<char>::empty(), r));
        } else {
            assert(take_digits(r) == (Seq::<char>::empty(), r));
        }
        assert(take_digits(ds + r).0 =~= ds);
    } else {
        let s = ds + r;
        assert(s[0] == ds[0]);
        assert(is_digit(s[0]));
        assert(s.drop_first() =~= ds.drop_first() + r);
        assert(all_digits(ds.drop_first())) by {
            assert(forall|i: int|
                0 <= i < ds.drop_first().len() ==> #[trigger] ds.drop_first()[i] == ds[i + 1]);
        }
        lemma_take_digits_prepend(ds.drop_first(), r);
        assert(take_digits(s).0 =~= seq![s[0]] + take_digits(s.drop_first()).0);
        assert(take_digits(s).0 =~= ds);
        assert(take_digits(s).1 == r);
    }
}

/// One decimal digit of `n < 10`, as a one-character string.
fn digit_str(n: u16) -> (r: &'static str)
    requires
        n < 10,
    ensures
        r@ == seq![digit_of(n as nat)],
{
    proof {
        reveal_strlit("0");
        reveal_strlit("1");
        reveal_strlit("2");
        reveal_strlit("3");
        reveal_strlit("4");
        reveal_strlit("5");
        reveal_strlit("6");
        reveal_strlit("7");
        reveal_strlit("8");
        reveal_strlit("9");
    }
    match n {
        0 => "0",
        1 => "1",
        2 => "2",
        3 => "3",
        4 => "4",
        5 => "5",
        6 => "6",
        7 => "7",
        8 => "8",
        _ => "9",
    }
}

/// The decimal digit string of `n`, without padding.
pub fn u16_to_decimal(n: u16) -> (r: String)
    ensures
        r@ == dec_of(n as nat),
    decreases n,
{
    if n < 10 {
        String::from_str(digit_str(n))
    } else {
        let mut s = u16_to_decimal(n / 10);
        s.append(digit_str(n % 10));
        s
    }
}

/// The decimal digit string of `n`, without padding.
pub fn usize_to_decimal(n: usize) -> (r: String)
    ensures
        r@ == dec_of(n as nat),
    decreases n,
{
    if n < 10 {
        String::from_str(digit_str(n as u16))
    } else {
        let mut s = usize_to_decimal(n / 10);
        s.append(digit_str((n % 10) as u16));
        s
    }
}

/// The value of a digit character, or `None` for any other character.
pub fn char_digit(c: char) -> (r: Option<u8>)
    ensures
        r is Some <==> is_digit(c),
        r is Some ==> r.unwrap() < 10 && r.unwrap() as nat == digit_val(c),
{
    match c {
        '0' => Some(0),
        '1' => Some(1),
        '2' => Some(2),
        '3' => Some(3),
        '4' => Some(4),
        '5' => Some(5),
        '6' => Some(6),
        '7' => Some(7),
        '8' => Some(8),
        '9' => Some(9),
        _ => None,
    }
}

/// Reads the maximal digit run of `s` starting at `start`: returns the index
/// after the run, the value read (saturating), and whether the value
/// overflowed `usize`.
pub fn parse_decimal(s: &str, n: usize, start: usize) -> (r: (usize, usize, bool))
    requires
        s@.len() == n as nat,
        start <= n,
    ensures
        start <= r.0 <= n,
        take_digits(s@.skip(start as int)).0 == s@.subrange(start as int, r.0 as int),
        take_digits(s@.skip(start as int)).1 == s@.skip(r.0 as int),
        !r.2 ==> r.1 as nat == dec_val(s@.subrange(start as int, r.0 as int)),
        r.2 ==> dec_val(s@.subrange(start as int, r.0 as int)) > usize::MAX as nat,
{
    let mut i = start;
    let mut acc: usize = 0;
    let mut overflow = false;
    while i < n && char_digit(s.get_char(i)).is_some()
        invariant
            s@.len() == n as nat,
            start <= i <= n,
            all_digits(s@.subrange(start as int, i as int)),
            !overflow ==> acc as nat == dec_val(s@.subrange(start as int, i as int)),
            overflow ==> dec_val(s@.subrange(start as int, i as int)) > usize::MAX as nat,
        decreases n - i,
    {
        let c = s.get_char(i);
        let d = char_digit(c).unwrap();
        proof {
            let pre = s@.subrange(start as int, i as int);
            let nxt = s@.subrange(start as int, i as int + 1);
            assert(nxt.drop_last() =~= pre);
            assert(nxt.last() == s@[i as int]);
            assert(dec_val(nxt) == dec_val(pre) * 10 + digit_val(c));
        }
        if !overflow {
            if acc > (usize::MAX - d as usize) / 10 {
                proof {
                    let q = (usize::MAX - d as usize) / 10;
                    assert(q * 10 + (usize::MAX - d as usize) % 10 == usize::MAX - d as usize);
                    assert(acc as nat * 10 + d as nat > usize::MAX as nat);
                }
                overflow = true;
            } else {
                proof {
                    let q = (usize::MAX - d as usize) / 10;
                    assert(q * 10 + (usize::MAX - d as usize) % 10 == usize::MAX - d as usize);
                    assert(acc as nat * 10 + d as nat <= usize::MAX as nat);
                }
                acc = acc * 10 + d as usize;
            }
        }
        i += 1;
    }
    proof {
        let ds = s@.subrange(start as int, i as int);
        let rest = s@.skip(i as int);
        assert(i < n ==> rest[0] == s@[i as int]);
        lemma_take_digits_prepend(ds, rest);
        assert(ds + rest =~= s@.skip(start as int));
    }
    (i, acc, overflow)
}

} // verus!
