//! Text: decimal numbers, the order of strings by their bytes, and white space.
use vstd::prelude::*;
use vstd::utf8::{encode_utf8, encode_utf8_decode_utf8};

verus! {

/// The digit for a number below ten.
pub open spec fn digit(n: nat) -> char {
    (48 + n) as char
}

/// A number in decimal, without leading zeros.
pub open spec fn decimal(n: nat) -> Seq<char>
    decreases n,
{
    if n < 10 {
        seq![digit(n)]
    } else {
        decimal(n / 10).push(digit(n % 10))
    }
}

/// An integer in decimal, with a minus sign in front where it is negative.
pub open spec fn signed_decimal(n: int) -> Seq<char> {
    if n < 0 {
        seq!['-'] + decimal((-n) as nat)
    } else {
        decimal(n as nat)
    }
}

proof fn lemma_decimal_is_not_empty(n: nat)
    ensures
        decimal(n).len() > 0,
{
}

/// Different numbers have different decimals.
pub proof fn decimals_differ(a: nat, b: nat)
    requires
        decimal(a) == decimal(b),
    ensures
        a == b,
    decreases a,
{
    let x = decimal(a);
    let y = decimal(b);
    assert(x.last() == digit(a % 10) && y.last() == digit(b % 10));
    assert(digit(a % 10) as nat == 48 + a % 10);
    assert(digit(b % 10) as nat == 48 + b % 10);
    if a < 10 && b >= 10 {
        lemma_decimal_is_not_empty(b / 10);
        assert(y.drop_last() =~= decimal(b / 10));
    } else if a >= 10 && b < 10 {
        lemma_decimal_is_not_empty(a / 10);
        assert(x.drop_last() =~= decimal(a / 10));
    } else if a >= 10 && b >= 10 {
        assert(x.drop_last() =~= decimal(a / 10));
        assert(y.drop_last() =~= decimal(b / 10));
        decimals_differ(a / 10, b / 10);
    }
}

proof fn lemma_digits_read_back(n: nat)
    ensures
        decimal(n).fold_left(0int, |value: int, c: char| 10 * value + (c as int - '0' as int)) == n,
        forall|k: int| 0 <= k < decimal(n).len() ==> '0' <= (#[trigger] decimal(n)[k]) <= '9',
        n > 0 ==> decimal(n)[0] != '0',
    decreases n,
{
    let text = decimal(n);
    let read = |value: int, c: char| 10 * value + (c as int - '0' as int);
    assert(digit(n % 10) as int == 48 + n % 10);
    if n < 10 {
        assert(text.drop_last() =~= Seq::empty());
        assert(text.drop_last().fold_left(0int, read) == 0);
        assert(text.last() == digit(n));
    } else {
        lemma_digits_read_back(n / 10);
        lemma_decimal_is_not_empty(n / 10);
        assert(text.drop_last() =~= decimal(n / 10));
        assert(text.last() == digit(n % 10));
        assert forall|k: int| 0 <= k < text.len() implies '0' <= (#[trigger] text[k]) <= '9' by {
            if k < text.len() - 1 {
                assert(text[k] == decimal(n / 10)[k]);
            }
        }
        assert(text[0] == decimal(n / 10)[0]);
    }
}

/// A decimal is made of digits, starts with a zero only where it is the decimal
/// of zero, and gives the number when it is read digit by digit.
pub proof fn decimal_reads_as_the_number(n: nat)
    ensures
        decimal(n).len() > 0,
        forall|k: int| 0 <= k < decimal(n).len() ==> '0' <= (#[trigger] decimal(n)[k]) <= '9',
        decimal(n)[0] == '0' ==> n == 0 && decimal(n).len() == 1,
        decimal(n).fold_left(0int, |value: int, c: char| 10 * value + (c as int - '0' as int)) == n,
{
    lemma_decimal_is_not_empty(n);
    lemma_digits_read_back(n);
}

/// The decimal of a negative integer is a minus sign and the decimal of the
/// number without it; that of any other starts with a digit.
pub proof fn signed_decimal_reads_as_the_integer(n: int)
    ensures
        n < 0 ==> signed_decimal(n).first() == '-' && signed_decimal(n).skip(1) == decimal(
            (-n) as nat,
        ),
        n >= 0 ==> signed_decimal(n) == decimal(n as nat) && signed_decimal(n).first() != '-',
{
    if n < 0 {
        assert(signed_decimal(n).skip(1) =~= decimal((-n) as nat));
    } else {
        decimal_reads_as_the_number(n as nat);
    }
}

/// Different integers have different decimals.
pub proof fn signed_decimals_differ(a: int, b: int)
    requires
        signed_decimal(a) == signed_decimal(b),
    ensures
        a == b,
{
    signed_decimal_reads_as_the_integer(a);
    signed_decimal_reads_as_the_integer(b);
    if a < 0 {
        decimals_differ((-a) as nat, (-b) as nat);
    } else {
        decimals_differ(a as nat, b as nat);
    }
}

/// The digit for `n` as text.
fn digit_text(n: u64) -> (text: &'static str)
    requires
        n < 10,
    ensures
        text@ == seq![digit(n as nat)],
{
    proof {
        reveal_strlit("0");
        reveal_strlit("1");
        reveal_strlit("2");
        reveal_strlit("3");
        reveal_strlit("4");
        reveal_strlit("5");
        reveal_strlit("6");
        reveal_strlit("7");
        reveal_strlit("8");
        reveal_strlit("9");
    }
    match n {
        0 => "0",
        1 => "1",
        2 => "2",
        3 => "3",
        4 => "4",
        5 => "5",
        6 => "6",
        7 => "7",
        8 => "8",
        _ => "9",
    }
}

/// Writes a number in decimal at the end of `out`.
pub fn append_decimal(out: &mut String, n: u64)
    ensures
        final(out)@ == old(out)@ + decimal(n as nat),
    decreases n,
{
    if n >= 10 {
        append_decimal(out, n / 10);
    }
    out.append(digit_text(n % 10));
}

/// Writes an integer in decimal at the end of `out`.
pub fn append_signed_decimal(out: &mut String, n: i64)
    ensures
        final(out)@ == old(out)@ + signed_decimal(n as int),
{
    if n < 0 {
        proof {
            reveal_strlit("-");
        }
        out.append("-");
        let size: i128 = -(n as i128);
        append_decimal(out, size as u64);
    } else {
        append_decimal(out, n as u64);
    }
}

/// `a` comes before `b` byte by byte, and a string before its extensions.
pub open spec fn bytes_before(a: Seq<u8>, b: Seq<u8>) -> bool
    decreases a.len(),
{
    if b.len() == 0 {
        false
    } else if a.len() == 0 {
        true
    } else if a[0] != b[0] {
        a[0] < b[0]
    } else {
        bytes_before(a.drop_first(), b.drop_first())
    }
}

/// The order of strings: that of their UTF-8 bytes.
pub open spec fn text_before(a: Seq<char>, b: Seq<char>) -> bool {
    bytes_before(encode_utf8(a), encode_utf8(b))
}

proof fn lemma_bytes_before_irreflexive(a: Seq<u8>)
    ensures
        !bytes_before(a, a),
    decreases a.len(),
{
    if a.len() > 0 {
        lemma_bytes_before_irreflexive(a.drop_first());
    }
}

proof fn lemma_bytes_before_transitive(a: Seq<u8>, b: Seq<u8>, c: Seq<u8>)
    requires
        bytes_before(a, b),
        bytes_before(b, c),
    ensures
        bytes_before(a, c),
    decreases a.len(),
{
    if a.len() > 0 && a[0] == b[0] && b[0] == c[0] {
        lemma_bytes_before_transitive(a.drop_first(), b.drop_first(), c.drop_first());
    }
}

proof fn lemma_bytes_before_total(a: Seq<u8>, b: Seq<u8>)
    ensures
        bytes_before(a, b) || bytes_before(b, a) || a == b,
    decreases a.len(),
{
    if a.len() > 0 && b.len() > 0 {
        if a[0] == b[0] {
            lemma_bytes_before_total(a.drop_first(), b.drop_first());
            if a.drop_first() == b.drop_first() {
                assert(a =~= seq![a[0]] + a.drop_first());
                assert(b =~= seq![b[0]] + b.drop_first());
            }
        }
    } else if a.len() == 0 && b.len() == 0 {
        assert(a =~= b);
    }
}

/// Strings with the same bytes are the same.
proof fn lemma_same_bytes_same_text(a: Seq<char>, b: Seq<char>)
    requires
        encode_utf8(a) == encode_utf8(b),
    ensures
        a == b,
{
    encode_utf8_decode_utf8(a);
    encode_utf8_decode_utf8(b);
}

/// The order of strings is a strict total order.
pub proof fn text_order_is_strict_and_total(a: Seq<char>, b: Seq<char>, c: Seq<char>)
    ensures
        !text_before(a, a),
        text_before(a, b) && text_before(b, c) ==> text_before(a, c),
        text_before(a, b) || text_before(b, a) || a == b,
{
    lemma_bytes_before_irreflexive(encode_utf8(a));
    if text_before(a, b) && text_before(b, c) {
        lemma_bytes_before_transitive(encode_utf8(a), encode_utf8(b), encode_utf8(c));
    }
    lemma_bytes_before_total(encode_utf8(a), encode_utf8(b));
    if encode_utf8(a) == encode_utf8(b) {
        lemma_same_bytes_same_text(a, b);
    }
}

proof fn lemma_bytes_before_is_first_difference(a: Seq<u8>, b: Seq<u8>)
    ensures
        bytes_before(a, b) <==> exists|k: int|
            {
                &&& 0 <= k <= a.len() && k < b.len()
                &&& a.take(k) == #[trigger] b.take(k)
                &&& k < a.len() ==> a[k] < b[k]
            },
    decreases a.len(),
{
    if a.len() == 0 || b.len() == 0 || a[0] != b[0] {
        assert(a.take(0) =~= b.take(0));
        if exists|k: int|
            {
                &&& 0 <= k <= a.len() && k < b.len()
                &&& a.take(k) == #[trigger] b.take(k)
                &&& k < a.len() ==> a[k] < b[k]
            } {
            let k = choose|k: int|
                {
                    &&& 0 <= k <= a.len() && k < b.len()
                    &&& a.take(k) == #[trigger] b.take(k)
                    &&& k < a.len() ==> a[k] < b[k]
                };
            if k > 0 {
                assert(a.take(k)[0] == b.take(k)[0]);
            }
        }
    } else {
        let x = a.drop_first();
        let y = b.drop_first();
        lemma_bytes_before_is_first_difference(x, y);
        if bytes_before(x, y) {
            let k = choose|k: int|
                {
                    &&& 0 <= k <= x.len() && k < y.len()
                    &&& x.take(k) == #[trigger] y.take(k)
                    &&& k < x.len() ==> x[k] < y[k]
                };
            assert(a.take(k + 1) =~= seq![a[0]] + x.take(k));
            assert(b.take(k + 1) =~= seq![b[0]] + y.take(k));
        }
        if exists|k: int|
            {
                &&& 0 <= k <= a.len() && k < b.len()
                &&& a.take(k) == #[trigger] b.take(k)
                &&& k < a.len() ==> a[k] < b[k]
            } {
            let k = choose|k: int|
                {
                    &&& 0 <= k <= a.len() && k < b.len()
                    &&& a.take(k) == #[trigger] b.take(k)
                    &&& k < a.len() ==> a[k] < b[k]
                };
            assert(x.take(k - 1) =~= a.take(k).skip(1));
            assert(y.take(k - 1) =~= b.take(k).skip(1));
        }
    }
}

/// A string comes before another where the other goes on after it, or where its
/// byte is the smaller one at the first place in which their UTF-8 differs.
pub proof fn text_order_is_that_of_bytes(a: Seq<char>, b: Seq<char>)
    ensures
        text_before(a, b) <==> exists|k: int|
            {
                &&& 0 <= k <= encode_utf8(a).len() && k < encode_utf8(b).len()
                &&& encode_utf8(a).take(k) == #[trigger] encode_utf8(b).take(k)
                &&& k < encode_utf8(a).len() ==> encode_utf8(a)[k] < encode_utf8(b)[k]
            },
{
    lemma_bytes_before_is_first_difference(encode_utf8(a), encode_utf8(b));
}

/// Strings that start with different ASCII letters come in the order of those.
pub(crate) proof fn lemma_first_letters_order(a: Seq<char>, b: Seq<char>)
    requires
        a.len() > 0,
        b.len() > 0,
        (a[0] as u32) < (b[0] as u32) < 128,
    ensures
        text_before(a, b),
{
    let x = a[0] as u32;
    let y = b[0] as u32;
    assert((x & 0x7F) as u8 == x) by (bit_vector)
        requires
            x < 128,
    ;
    assert((y & 0x7F) as u8 == y) by (bit_vector)
        requires
            y < 128,
    ;
    assert(encode_utf8(a)[0] == x);
    assert(encode_utf8(b)[0] == y);
}

/// How two strings stand to each other.
#[derive(Clone, Copy, Debug, PartialEq, Eq, Structural)]
pub enum Placement {
    Before,
    Same,
    After,
}

/// Says how `a` stands to `b` in the order of strings.
pub fn place_text(a: &str, b: &str) -> (placement: Placement)
    ensures
        match placement {
            Placement::Before => text_before(a@, b@) && a@ != b@,
            Placement::Same => a@ == b@,
            Placement::After => text_before(b@, a@) && a@ != b@,
        },
{
    let left = a.as_bytes();
    let right = b.as_bytes();
    let mut k: usize = 0;
    proof {
        text_order_is_strict_and_total(a@, a@, a@);
        assert(left@.skip(0) =~= left@);
        assert(right@.skip(0) =~= right@);
    }
    while k < left.len() && k < right.len() && left[k] == right[k]
        invariant
            0 <= k <= left@.len(),
            k <= right@.len(),
            left@ == encode_utf8(a@),
            right@ == encode_utf8(b@),
            left@.take(k as int) =~= right@.take(k as int),
            bytes_before(left@, right@) == bytes_before(
                left@.skip(k as int),
                right@.skip(k as int),
            ),
            bytes_before(right@, left@) == bytes_before(
                right@.skip(k as int),
                left@.skip(k as int),
            ),
        decreases left@.len() - k,
    {
        proof {
            assert(left@.skip(k as int).drop_first() =~= left@.skip(k + 1));
            assert(right@.skip(k as int).drop_first() =~= right@.skip(k + 1));
        }
        k = k + 1;
    }
    if k == left.len() && k == right.len() {
        proof {
            assert(left@.take(k as int) =~= left@);
            assert(right@.take(k as int) =~= right@);
            lemma_same_bytes_same_text(a@, b@);
        }
        Placement::Same
    } else if k == left.len() || (k < right.len() && left[k] < right[k]) {
        Placement::Before
    } else {
        Placement::After
    }
}

/// Whether two strings are the same.
pub fn same_text(a: &str, b: &str) -> (same: bool)
    ensures
        same == (a@ == b@),
{
    match place_text(a, b) {
        Placement::Same => true,
        _ => false,
    }
}

/// The character has the Unicode property `White_Space`.
pub open spec fn is_whitespace(c: char) -> bool {
    let n = c as u32;
    ||| 0x9 <= n <= 0xd
    ||| n == 0x20
    ||| n == 0x85
    ||| n == 0xa0
    ||| n == 0x1680
    ||| 0x2000 <= n <= 0x200a
    ||| 0x2028 <= n <= 0x2029
    ||| n == 0x202f
    ||| n == 0x205f
    ||| n == 0x3000
}

/// A text without the white space at its start.
pub open spec fn trimmed_start(text: Seq<char>) -> Seq<char>
    decreases text.len(),
{
    if text.len() > 0 && is_whitespace(text.first()) {
        trimmed_start(text.drop_first())
    } else {
        text
    }
}

/// A text without the white space at its end.
pub open spec fn trimmed_end(text: Seq<char>) -> Seq<char>
    decreases text.len(),
{
    if text.len() > 0 && is_whitespace(text.last()) {
        trimmed_end(text.drop_last())
    } else {
        text
    }
}

/// `char::is_whitespace`: whether the character has the Unicode property
/// `White_Space`.
pub assume_specification[ char::is_whitespace ](c: char) -> (white: bool)
    ensures
        white == is_whitespace(c),
;

proof fn lemma_trimmed_start(text: Seq<char>, start: int)
    requires
        0 <= start <= text.len(),
        forall|k: int| 0 <= k < start ==> is_whitespace(#[trigger] text[k]),
        start < text.len() ==> !is_whitespace(text[start]),
    ensures
        trimmed_start(text) == text.skip(start),
    decreases start,
{
    if start > 0 {
        let rest = text.drop_first();
        assert(is_whitespace(text[0]));
        assert forall|k: int| 0 <= k < start - 1 implies is_whitespace(#[trigger] rest[k]) by {
            assert(rest[k] == text[k + 1]);
        }
        lemma_trimmed_start(rest, start - 1);
        assert(rest.skip(start - 1) =~= text.skip(start));
    } else {
        assert(text.skip(0) =~= text);
    }
}

proof fn lemma_trimmed_end(text: Seq<char>, end: int)
    requires
        0 <= end <= text.len(),
        forall|k: int| end <= k < text.len() ==> is_whitespace(#[trigger] text[k]),
        end > 0 ==> !is_whitespace(text[end - 1]),
    ensures
        trimmed_end(text) == text.take(end),
    decreases text.len(),
{
    if end < text.len() {
        let rest = text.drop_last();
        assert(is_whitespace(text[text.len() - 1]));
        lemma_trimmed_end(rest, end);
        assert(rest.take(end) =~= text.take(end));
    } else {
        assert(text.take(end) =~= text);
    }
}

proof fn lemma_white_start(text: Seq<char>) -> (start: int)
    ensures
        0 <= start <= text.len(),
        forall|k: int| 0 <= k < start ==> is_whitespace(#[trigger] text[k]),
        start < text.len() ==> !is_whitespace(text[start]),
    decreases text.len(),
{
    if text.len() > 0 && is_whitespace(text[0]) {
        let rest = text.drop_first();
        let start = lemma_white_start(rest);
        assert forall|k: int| 0 <= k < start + 1 implies is_whitespace(#[trigger] text[k]) by {
            if k > 0 {
                assert(rest[k - 1] == text[k]);
            }
        }
        start + 1
    } else {
        0
    }
}

proof fn lemma_white_end(text: Seq<char>) -> (end: int)
    ensures
        0 <= end <= text.len(),
        forall|k: int| end <= k < text.len() ==> is_whitespace(#[trigger] text[k]),
        end > 0 ==> !is_whitespace(text[end - 1]),
    decreases text.len(),
{
    if text.len() > 0 && is_whitespace(text[text.len() - 1]) {
        let front = text.drop_last();
        let end = lemma_white_end(front);
        assert forall|k: int| end <= k < text.len() implies is_whitespace(#[trigger] text[k]) by {
            if k < front.len() {
                assert(front[k] == text[k]);
            }
        }
        end
    } else {
        text.len() as int
    }
}

/// Trimming a text takes the white space off its start and its end, and nothing
/// else.
pub proof fn trimming_takes_off_white_space(text: Seq<char>)
    ensures
        exists|start: int, end: int|
            {
                &&& 0 <= start <= end <= text.len()
                &&& trimmed_end(trimmed_start(text)) == #[trigger] text.subrange(start, end)
                &&& forall|k: int|
                    0 <= k < start || end <= k < text.len() ==> is_whitespace(#[trigger] text[k])
                &&& start < end ==> !is_whitespace(text[start]) && !is_whitespace(
                    text[end - 1],
                )
            },
{
    let start = lemma_white_start(text);
    lemma_trimmed_start(text, start);
    let rest = text.skip(start);
    let end = lemma_white_end(rest);
    lemma_trimmed_end(rest, end);
    assert(rest.take(end) =~= text.subrange(start, start + end));
    assert forall|k: int| 0 <= k < start || start + end <= k < text.len() implies is_whitespace(
        #[trigger] text[k],
    ) by {
        if k >= start + end {
            assert(rest[k - start] == text[k]);
        }
    }
    if end > 0 {
        assert(rest[end - 1] == text[start + end - 1]);
    }
}

/// The text without white space at its start and end.
pub fn trim_text(text: &str) -> (trimmed: &str)
    ensures
        trimmed@ == trimmed_end(trimmed_start(text@)),
        exists|start: int, end: int|
            {
                &&& 0 <= start <= end <= text@.len()
                &&& trimmed@ == #[trigger] text@.subrange(start, end)
                &&& forall|k: int|
                    0 <= k < start || end <= k < text@.len() ==> is_whitespace(#[trigger] text@[k])
                &&& start < end ==> !is_whitespace(text@[start]) && !is_whitespace(
                    text@[end - 1],
                )
            },
{
    let count: usize = text.unicode_len();
    let mut start: usize = 0;
    while start < count && text.get_char(start).is_whitespace()
        invariant
            start <= count == text@.len(),
            forall|k: int| 0 <= k < start ==> is_whitespace(#[trigger] text@[k]),
        decreases count - start,
    {
        start = start + 1;
    }
    let mut end: usize = count;
    while end > start && text.get_char(end - 1).is_whitespace()
        invariant
            start <= end <= count == text@.len(),
            forall|k: int| end <= k < count ==> is_whitespace(#[trigger] text@[k]),
        decreases end,
    {
        end = end - 1;
    }
    proof {
        let rest = text@.skip(start as int);
        lemma_trimmed_start(text@, start as int);
        assert forall|k: int| end - start <= k < rest.len() implies is_whitespace(
            #[trigger] rest[k],
        ) by {
            assert(rest[k] == text@[start + k]);
        }
        lemma_trimmed_end(rest, end - start);
        assert(rest.take(end - start) =~= text@.subrange(start as int, end as int));
        trimming_takes_off_white_space(text@);
    }
    text.substring_char(start, end)
}

} // verus!
