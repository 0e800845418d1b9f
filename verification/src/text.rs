//! Texts: numbers in decimal, and what a text is as bytes.
use vstd::prelude::*;
use vstd::string::StringExecFns;

verus! {

/// The character for a decimal digit.
pub open spec fn digit(d: nat) -> char {
    if d == 0 {
        '0'
    } else if d == 1 {
        '1'
    } else if d == 2 {
        '2'
    } else if d == 3 {
        '3'
    } else if d == 4 {
        '4'
    } else if d == 5 {
        '5'
    } else if d == 6 {
        '6'
    } else if d == 7 {
        '7'
    } else if d == 8 {
        '8'
    } else {
        '9'
    }
}

/// A number written in decimal, without leading zeros.
pub open spec fn digits(n: nat) -> Seq<char>
    decreases n,
{
    if n < 10 {
        seq![digit(n)]
    } else {
        digits(n / 10).push(digit(n % 10))
    }
}

/// The text of one decimal digit.
fn digit_text(d: u128) -> (text: &'static str)
    requires
        d < 10,
    ensures
        text@ == seq![digit(d as nat)],
{
    proof {
        reveal_strlit("0");
        reveal_strlit("1");
        reveal_strlit("2");
        reveal_strlit("3");
        reveal_strlit("4");
        reveal_strlit("5");
        reveal_strlit("6");
        reveal_strlit("7");
        reveal_strlit("8");
        reveal_strlit("9");
    }
    let text = if d == 0 {
        "0"
    } else if d == 1 {
        "1"
    } else if d == 2 {
        "2"
    } else if d == 3 {
        "3"
    } else if d == 4 {
        "4"
    } else if d == 5 {
        "5"
    } else if d == 6 {
        "6"
    } else if d == 7 {
        "7"
    } else if d == 8 {
        "8"
    } else {
        "9"
    };
    assert(text@ =~= seq![digit(d as nat)]);
    text
}

/// Writes a number in decimal.
pub fn decimal(n: u128) -> (text: String)
    ensures
        text@ == digits(n as nat),
{
    let mut text = String::from_str(digit_text(n % 10));
    let mut rest: u128 = n / 10;
    assert(seq![digit((n % 10) as nat)] =~= Seq::<char>::empty() + seq![digit((n % 10) as nat)]);
    assert(digits((n / 10) as nat) + seq![digit((n % 10) as nat)] =~= digits((n / 10) as nat).push(
        digit((n % 10) as nat),
    ));
    while rest > 0
        invariant
            digits(n as nat) == if rest > 0 {
                digits(rest as nat) + text@
            } else {
                text@
            },
        decreases rest,
    {
        let mut longer = String::from_str(digit_text(rest % 10));
        longer.append(text.as_str());
        proof {
            let d = seq![digit((rest % 10) as nat)];
            if rest >= 10 {
                assert(digits(rest as nat) + text@ =~= digits((rest / 10) as nat) + (d + text@));
            } else {
                assert(digits(rest as nat) + text@ =~= d + text@);
            }
        }
        text = longer;
        rest = rest / 10;
    }
    text
}

/// Puts texts one after the other, with `separator` between them.
pub open spec fn joined(parts: Seq<Seq<char>>, separator: Seq<char>) -> Seq<char>
    decreases parts.len(),
{
    if parts.len() == 0 {
        Seq::empty()
    } else if parts.len() == 1 {
        parts[0]
    } else {
        joined(parts.drop_last(), separator) + separator + parts.last()
    }
}

/// Joins texts with a separator between them.
pub fn join(parts: &Vec<String>, separator: &str) -> (text: String)
    ensures
        text@ == joined(Seq::new(parts@.len(), |i: int| parts@[i]@), separator@),
{
    let ghost texts = Seq::new(parts@.len(), |i: int| parts@[i]@);
    let mut text = String::new();
    let mut i: usize = 0;
    assert(texts.take(0) =~= Seq::<Seq<char>>::empty());
    while i < parts.len()
        invariant
            i <= parts.len(),
            texts == Seq::new(parts@.len(), |i: int| parts@[i]@),
            text@ == joined(texts.take(i as int), separator@),
        decreases parts.len() - i,
    {
        if i > 0 {
            text.append(separator);
        }
        text.append(parts[i].as_str());
        proof {
            let prefix = texts.take(i as int + 1);
            assert(prefix.drop_last() =~= texts.take(i as int));
            assert(prefix.last() == parts@[i as int]@);
            if i == 0 {
                assert(text@ =~= prefix[0]);
            }
        }
        i = i + 1;
    }
    assert(texts.take(i as int) =~= texts);
    text
}

/// The UTF-8 encoding of one text followed by another is the encoding of the
/// first followed by the encoding of the second.
pub proof fn lemma_utf8_concat(a: Seq<char>, b: Seq<char>)
    ensures
        vstd::utf8::encode_utf8(a + b) == vstd::utf8::encode_utf8(a) + vstd::utf8::encode_utf8(b),
    decreases a.len(),
{
    if a.len() == 0 {
        assert(a + b =~= b);
        assert(vstd::utf8::encode_utf8(a) + vstd::utf8::encode_utf8(b) =~= vstd::utf8::encode_utf8(
            b,
        ));
    } else {
        lemma_utf8_concat(a.drop_first(), b);
        assert((a + b).drop_first() =~= a.drop_first() + b);
        assert(vstd::utf8::encode_utf8(a + b) =~= vstd::utf8::encode_utf8(a)
            + vstd::utf8::encode_utf8(b));
    }
}

} // verus!
