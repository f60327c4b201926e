//! Text: equality, and decimal numbers.

use vstd::prelude::*;
use vstd::string::{StringExecFns, StringSliceAdditionalSpecFns};

verus! {

/// Whether two texts are the same.
pub fn same_text(a: &str, b: &str) -> (same: bool)
    ensures
        same == (a@ == b@),
{
    let x = a.as_bytes();
    let y = b.as_bytes();
    proof {
        vstd::utf8::encode_utf8_decode_utf8(a@);
        vstd::utf8::encode_utf8_decode_utf8(b@);
    }
    if x.len() != y.len() {
        return false;
    }
    let mut i: usize = 0;
    while i < x.len()
        invariant
            i <= x@.len(),
            x@.len() == y@.len(),
            x@ == a.spec_bytes(),
            y@ == b.spec_bytes(),
            forall|k: int| 0 <= k < i ==> x@[k] == y@[k],
        decreases x@.len() - i,
    {
        if x[i] != y[i] {
            return false;
        }
        i = i + 1;
    }
    proof {
        assert(x@ =~= y@);
    }
    true
}

/// The character of a decimal digit.
pub open spec fn digit_char(d: int) -> char {
    ('0' as int + d) as char
}

/// A number in decimal digits, without leading zeros.
pub open spec fn decimal(n: nat) -> Seq<char>
    decreases n,
{
    if n < 10 {
        seq![digit_char(n as int)]
    } else {
        decimal(n / 10).push(digit_char((n % 10) as int))
    }
}

fn digit_text(d: u64) -> (t: &'static str)
    requires
        d < 10,
    ensures
        t@ == seq![digit_char(d as int)],
{
    proof {
        reveal_strlit("0");
        reveal_strlit("1");
        reveal_strlit("2");
        reveal_strlit("3");
        reveal_strlit("4");
        reveal_strlit("5");
        reveal_strlit("6");
        reveal_strlit("7");
        reveal_strlit("8");
        reveal_strlit("9");
        assert("0"@ =~= seq!['0']);
        assert("1"@ =~= seq!['1']);
        assert("2"@ =~= seq!['2']);
        assert("3"@ =~= seq!['3']);
        assert("4"@ =~= seq!['4']);
        assert("5"@ =~= seq!['5']);
        assert("6"@ =~= seq!['6']);
        assert("7"@ =~= seq!['7']);
        assert("8"@ =~= seq!['8']);
        assert("9"@ =~= seq!['9']);
    }
    match d {
        0 => "0",
        1 => "1",
        2 => "2",
        3 => "3",
        4 => "4",
        5 => "5",
        6 => "6",
        7 => "7",
        8 => "8",
        _ => "9",
    }
}

/// Appends a number in decimal digits.
pub fn append_decimal(out: &mut String, n: u64)
    ensures
        final(out)@ == old(out)@ + decimal(n as nat),
    decreases n,
{
    if n >= 10 {
        append_decimal(out, n / 10);
    }
    out.append(digit_text(n % 10));
    proof {
        assert(out@ =~= old(out)@ + decimal(n as nat));
    }
}

/// Whether a character is a decimal digit.
pub open spec fn is_digit(c: char) -> bool {
    '0' <= c <= '9'
}

/// A decimal number consists of digits, at least one, and is the text of no
/// other number.
pub proof fn decimal_is_faithful(a: nat, b: nat)
    ensures
        decimal(a).len() > 0,
        forall|i: int| 0 <= i < decimal(a).len() ==> is_digit(#[trigger] decimal(a)[i]),
        decimal(a) == decimal(b) ==> a == b,
    decreases a,
{
    if a >= 10 {
        decimal_is_faithful(a / 10, b / 10);
        if b < 10 {
            assert(decimal(a).len() > 1);
        } else if decimal(a) == decimal(b) {
            assert(decimal(a).drop_last() =~= decimal(a / 10));
            assert(decimal(b).drop_last() =~= decimal(b / 10));
            assert(decimal(a).last() == decimal(b).last());
            assert(a % 10 == b % 10);
        }
    } else if b >= 10 {
        lemma_decimal_len(b / 10);
    } else {
        assert(decimal(a)[0] == digit_char(a as int));
        assert(decimal(b)[0] == digit_char(b as int));
    }
}

proof fn lemma_decimal_len(b: nat)
    ensures
        decimal(b).len() > 0,
{
}

/// Whether `a` comes after `b` where bytes decide, the first that differs.
pub open spec fn bytes_after(a: Seq<u8>, b: Seq<u8>) -> bool
    decreases a.len(),
{
    if a.len() == 0 {
        false
    } else if b.len() == 0 {
        true
    } else if a[0] != b[0] {
        a[0] > b[0]
    } else {
        bytes_after(a.drop_first(), b.drop_first())
    }
}

/// Whether a text comes after another in the order of their bytes.
pub open spec fn text_order_after(a: Seq<char>, b: Seq<char>) -> bool {
    bytes_after(vstd::utf8::encode_utf8(a), vstd::utf8::encode_utf8(b))
}

/// Whether a text comes after another in the order of their bytes.
pub fn text_after(a: &str, b: &str) -> (after: bool)
    ensures
        after == text_order_after(a@, b@),
{
    let x = a.as_bytes();
    let y = b.as_bytes();
    let mut i: usize = 0;
    proof {
        assert(x@.skip(0) =~= x@);
        assert(y@.skip(0) =~= y@);
    }
    while i < x.len() && i < y.len()
        invariant
            i <= x@.len(),
            i <= y@.len(),
            bytes_after(x@.skip(i as int), y@.skip(i as int)) == text_order_after(a@, b@),
        decreases x@.len() - i,
    {
        proof {
            assert(x@.skip(i as int).drop_first() =~= x@.skip(i + 1));
            assert(y@.skip(i as int).drop_first() =~= y@.skip(i + 1));
        }
        if x[i] != y[i] {
            return x[i] > y[i];
        }
        i = i + 1;
    }
    i < x.len()
}

/// A decimal number holds no slash.
pub proof fn lemma_digits_only(n: nat)
    ensures
        !decimal(n).contains('/'),
{
    decimal_is_faithful(n, n);
    if decimal(n).contains('/') {
        let i = choose|i: int| 0 <= i < decimal(n).len() && decimal(n)[i] == '/';
        assert(is_digit(decimal(n)[i]));
    }
}

/// Texts that start alike go on alike.
pub proof fn lemma_strip(head: Seq<char>, a: Seq<char>, b: Seq<char>)
    requires
        head + a == head + b,
    ensures
        a == b,
{
    assert((head + a).skip(head.len() as int) =~= a);
    assert((head + b).skip(head.len() as int) =~= b);
}

/// Texts that end alike start alike.
pub proof fn lemma_trim(a: Seq<char>, b: Seq<char>, tail: Seq<char>)
    requires
        a + tail == b + tail,
    ensures
        a == b,
{
    assert((a + tail).len() == (b + tail).len());
    assert((a + tail).take(a.len() as int) =~= a);
    assert((b + tail).take(b.len() as int) =~= b);
}

/// A part without a slash is known by the slash that ends it.
pub proof fn lemma_cut(a: Seq<char>, mid: Seq<char>, rest_a: Seq<char>, b: Seq<char>, rest_b: Seq<char>)
    requires
        !a.contains('/'),
        !b.contains('/'),
        mid.len() > 0,
        mid[0] == '/',
        a + mid + rest_a == b + mid + rest_b,
    ensures
        a == b,
        rest_a == rest_b,
{
    let x = a + mid + rest_a;
    let y = b + mid + rest_b;
    assert(x[a.len() as int] == '/');
    assert(y[b.len() as int] == '/');
    if a.len() < b.len() {
        assert(b[a.len() as int] == '/');
    }
    if b.len() < a.len() {
        assert(a[b.len() as int] == '/');
    }
    assert(x.take(a.len() as int) =~= a);
    assert(y.take(b.len() as int) =~= b);
    assert(x.skip((a.len() + mid.len()) as int) =~= rest_a);
    assert(y.skip((b.len() + mid.len()) as int) =~= rest_b);
}

/// The order of texts: nothing comes after itself, what comes after does not
/// come before, and not coming after carries over from one text to the next.
pub proof fn lemma_bytes_after(a: Seq<char>, b: Seq<char>, c: Seq<char>)
    ensures
        !text_order_after(a, a),
        text_order_after(b, a) ==> !text_order_after(a, b),
        !text_order_after(a, b) && !text_order_after(b, c) ==> !text_order_after(a, c),
{
    lemma_order(
        vstd::utf8::encode_utf8(a),
        vstd::utf8::encode_utf8(b),
        vstd::utf8::encode_utf8(c),
    );
}

proof fn lemma_order(a: Seq<u8>, b: Seq<u8>, c: Seq<u8>)
    ensures
        !bytes_after(a, a),
        bytes_after(b, a) ==> !bytes_after(a, b),
        !bytes_after(a, b) && !bytes_after(b, c) ==> !bytes_after(a, c),
    decreases a.len(),
{
    if a.len() > 0 {
        lemma_order(a.drop_first(), b.drop_first(), c.drop_first());
    }
}

/// A number is written without leading zeros.
pub proof fn numbers_start_with_no_zero(n: nat)
    ensures
        decimal(n)[0] == '0' ==> n == 0,
    decreases n,
{
    if n >= 10 {
        numbers_start_with_no_zero(n / 10);
        lemma_decimal_len(n / 10);
        assert(decimal(n)[0] == decimal(n / 10)[0]);
    }
}

/// The first byte that differs decides which of two texts comes after; where one
/// text starts with the other, the longer one does.
pub proof fn first_difference_decides(a: Seq<u8>, b: Seq<u8>, k: int)
    requires
        0 <= k <= a.len(),
        k <= b.len(),
        forall|i: int| 0 <= i < k ==> a[i] == b[i],
    ensures
        k == a.len() ==> !bytes_after(a, b),
        k == b.len() && k < a.len() ==> bytes_after(a, b),
        k < a.len() && k < b.len() && a[k] != b[k] ==> bytes_after(a, b) == (a[k] > b[k]),
    decreases k,
{
    if k > 0 {
        assert(a[0] == b[0]);
        let (c, d) = (a.drop_first(), b.drop_first());
        assert forall|i: int| 0 <= i < k - 1 implies c[i] == d[i] by {
            assert(a[i + 1] == b[i + 1]);
        }
        first_difference_decides(c, d, k - 1);
    }
}

} // verus!
