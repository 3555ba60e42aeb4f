//! The 65-symbol alphabet `+-/0-9A-Za-z` and the digit codec over it.
use vstd::prelude::*;

verus! {

/// Largest digit value.
pub const MAX_DIGIT: u8 = 64;

/// Digit value in the middle of the alphabet.
pub const MID_DIGIT: u8 = 32;

/// Code point of the symbol for digit `d`, for `d <= 64`.
pub open spec fn symbol_code(d: int) -> int {
    if d == 0 {
        43  // '+'
    } else if d == 1 {
        45  // '-'
    } else if d == 2 {
        47  // '/'
    } else if d < 13 {
        d + 45  // '0'..'9'
    } else if d < 39 {
        d + 52  // 'A'..'Z'
    } else {
        d + 58  // 'a'..'z'
    }
}

/// Digit of the symbol `c`, if `c` is in the alphabet.
pub open spec fn digit_of(c: char) -> Option<u8> {
    let x = c as int;
    if x == 43 {
        Some(0u8)
    } else if x == 45 {
        Some(1u8)
    } else if x == 47 {
        Some(2u8)
    } else if 48 <= x <= 57 {
        Some((x - 45) as u8)
    } else if 65 <= x <= 90 {
        Some((x - 52) as u8)
    } else if 97 <= x <= 122 {
        Some((x - 58) as u8)
    } else {
        None
    }
}

pub fn symbol(d: u8) -> (c: char)
    requires
        d <= MAX_DIGIT,
    ensures
        c as int == symbol_code(d as int),
        digit_of(c) == Some(d),
{
    let code: u8 = if d == 0 {
        43
    } else if d == 1 {
        45
    } else if d == 2 {
        47
    } else if d < 13 {
        d + 45
    } else if d < 39 {
        d + 52
    } else {
        d + 58
    };
    code as char
}

/// `d` holds the digits of the symbols of `s`, one for one.
pub open spec fn encodes(s: Seq<char>, d: Seq<u8>) -> bool {
    &&& s.len() == d.len()
    &&& forall|i: int| 0 <= i < s.len() ==> digit_of(#[trigger] s[i]) == Some(d[i])
}

/// `t` holds the symbols of the digits `d`, one for one.
pub open spec fn renders(d: Seq<u8>, t: Seq<char>) -> bool {
    &&& t.len() == d.len()
    &&& forall|i: int| 0 <= i < d.len() ==> #[trigger] t[i] as int == symbol_code(d[i] as int)
}

/// Every digit of `d` is within the alphabet.
pub open spec fn valid_digits(d: Seq<u8>) -> bool {
    forall|i: int| 0 <= i < d.len() ==> #[trigger] d[i] <= MAX_DIGIT
}

/// Position of the first symbol of `s` outside the alphabet, with every symbol before it valid.
pub open spec fn first_invalid(s: Seq<char>, i: int) -> bool {
    &&& 0 <= i < s.len()
    &&& digit_of(s[i]) is None
    &&& forall|j: int| 0 <= j < i ==> digit_of(#[trigger] s[j]) is Some
}

/// Digit of the symbol `c`, if it is in the alphabet.
pub fn digit(c: char) -> (r: Option<u8>)
    ensures
        r == digit_of(c),
{
    let x: u32 = c as u32;
    if x == 43 {
        Some(0)
    } else if x == 45 {
        Some(1)
    } else if x == 47 {
        Some(2)
    } else if 48 <= x && x <= 57 {
        Some((x - 45) as u8)
    } else if 65 <= x && x <= 90 {
        Some((x - 52) as u8)
    } else if 97 <= x && x <= 122 {
        Some((x - 58) as u8)
    } else {
        None
    }
}

/// Digits of the symbols of `s`; the first symbol outside the alphabet is the error.
pub fn encode(s: &str) -> (r: Result<Vec<u8>, char>)
    ensures
        match r {
            Ok(d) => encodes(s@, d@) && valid_digits(d@),
            Err(c) => exists|i: int| first_invalid(s@, i) && s@[i] == c,
        },
        r is Ok <==> forall|i: int| 0 <= i < s@.len() ==> digit_of(#[trigger] s@[i]) is Some,
{
    let n = s.unicode_len();
    let mut buf: Vec<u8> = Vec::new();
    let mut i: usize = 0;
    while i < n
        invariant
            n == s@.len(),
            i <= n,
            buf@.len() == i,
            encodes(s@.subrange(0, i as int), buf@),
            valid_digits(buf@),
            forall|j: int| 0 <= j < i ==> digit_of(#[trigger] s@[j]) is Some,
        decreases n - i,
    {
        let c = s.get_char(i);
        match digit(c) {
            Some(d) => {
                buf.push(d);
            },
            None => {
                assert(first_invalid(s@, i as int));
                return Err(c);
            },
        }
        i = i + 1;
        assert forall|j: int| 0 <= j < i implies digit_of(#[trigger] s@[j]) is Some by {
            if j < i - 1 {
            }
        }
        assert forall|j: int| 0 <= j < i implies digit_of(#[trigger] s@.subrange(0, i as int)[j])
            == Some(buf@[j]) by {
            if j < i - 1 {
                assert(s@.subrange(0, i as int)[j] == s@.subrange(0, i - 1)[j]);
            }
        }
    }
    assert(s@.subrange(0, n as int) =~= s@);
    Ok(buf)
}

/// Relies on `String::push`: appends one character at the end.
#[verifier::external_body]
fn push_char(s: &mut String, c: char)
    ensures
        final(s)@ == old(s)@.push(c),
{
    s.push(c)
}

/// Symbols of the digits `d`.
pub fn decode(d: &Vec<u8>) -> (t: String)
    requires
        valid_digits(d@),
    ensures
        renders(d@, t@),
{
    let mut t = String::new();
    let mut i: usize = 0;
    while i < d.len()
        invariant
            i <= d@.len(),
            valid_digits(d@),
            renders(d@.subrange(0, i as int), t@),
        decreases d@.len() - i,
    {
        let c = symbol(d[i]);
        push_char(&mut t, c);
        i = i + 1;
        assert forall|j: int| 0 <= j < i implies #[trigger] t@[j] as int == symbol_code(
            d@.subrange(0, i as int)[j] as int,
        ) by {
            if j < i - 1 {
                assert(d@.subrange(0, i as int)[j] == d@.subrange(0, i - 1)[j]);
            }
        }
    }
    assert(d@.subrange(0, d@.len() as int) =~= d@);
    t
}

/// Rendering the digits of a text gives the text back.
pub proof fn lemma_text_round_trip(s: Seq<char>, d: Seq<u8>, t: Seq<char>)
    requires
        encodes(s, d),
        renders(d, t),
    ensures
        t == s,
{
    assert forall|i: int| 0 <= i < s.len() implies t[i] == s[i] by {
        assert(digit_of(s[i]) == Some(d[i]));
        assert(t[i] as int == symbol_code(d[i] as int));
    }
    assert(t =~= s);
}

} // verus!
