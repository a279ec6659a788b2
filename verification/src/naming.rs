//! Names of the files that a batch writes: the stem of the input's name,
//! an underscore, the input's position in the batch in decimal, and `.png`.
//! The position keeps the names of two inputs apart even where their stems
//! are the same.

use vstd::prelude::*;
use vstd::string::StringExecFns;

verus! {

/// The character of a decimal digit.
pub open spec fn digit_char(d: int) -> char {
    if d == 0 {
        '0'
    } else if d == 1 {
        '1'
    } else if d == 2 {
        '2'
    } else if d == 3 {
        '3'
    } else if d == 4 {
        '4'
    } else if d == 5 {
        '5'
    } else if d == 6 {
        '6'
    } else if d == 7 {
        '7'
    } else if d == 8 {
        '8'
    } else {
        '9'
    }
}

/// Whether a character is a decimal digit.
pub open spec fn is_digit(c: char) -> bool {
    exists|d: int| 0 <= d < 10 && c == digit_char(d)
}

/// A number in decimal, without leading zeros.
pub open spec fn decimal(n: nat) -> Seq<char>
    decreases n,
{
    if n < 10 {
        seq![digit_char(n as int)]
    } else {
        decimal(n / 10).push(digit_char((n % 10) as int))
    }
}

/// The ending of every output file's name.
pub open spec fn extension() -> Seq<char> {
    seq!['.', 'p', 'n', 'g']
}

/// The name of the output file for the input with the given stem at
/// position `index`.
pub open spec fn file_name(stem: Seq<char>, index: nat) -> Seq<char> {
    stem + seq!['_'] + decimal(index) + extension()
}

/// A decimal is not empty and holds digits only.
pub proof fn lemma_decimal_digits(n: nat)
    ensures
        decimal(n).len() >= 1,
        n >= 10 ==> decimal(n).len() >= 2,
        forall|i: int| 0 <= i < decimal(n).len() ==> is_digit(#[trigger] decimal(n)[i]),
    decreases n,
{
    if n < 10 {
        assert(is_digit(digit_char(n as int)));
    } else {
        lemma_decimal_digits(n / 10);
        let d = (n % 10) as int;
        assert(is_digit(digit_char(d)));
        assert forall|i: int| 0 <= i < decimal(n).len() implies is_digit(
            #[trigger] decimal(n)[i],
        ) by {
            if i < decimal(n / 10).len() {
                assert(decimal(n)[i] == decimal(n / 10)[i]);
            }
        }
    }
}

/// Different numbers have different decimals.
pub proof fn lemma_decimal_injective(a: nat, b: nat)
    requires
        decimal(a) == decimal(b),
    ensures
        a == b,
    decreases a,
{
    lemma_decimal_digits(a);
    lemma_decimal_digits(b);
    if a < 10 {
        assert(decimal(a)[0] == digit_char(a as int));
        if b < 10 {
            assert(decimal(b)[0] == digit_char(b as int));
        }
    } else {
        let da = decimal(a / 10);
        let db = decimal(b / 10);
        assert(decimal(a).last() == digit_char((a % 10) as int));
        assert(decimal(b).last() == digit_char((b % 10) as int));
        assert(decimal(a).drop_last() =~= da);
        assert(decimal(b).drop_last() =~= db);
        lemma_decimal_injective(a / 10, b / 10);
    }
}

/// Two inputs at different positions get different names, whatever their
/// stems are.
pub proof fn lemma_file_names_differ(stem1: Seq<char>, index1: nat, stem2: Seq<char>, index2: nat)
    requires
        index1 != index2,
    ensures
        file_name(stem1, index1) != file_name(stem2, index2),
{
    let d1 = decimal(index1);
    let d2 = decimal(index2);
    let n1 = file_name(stem1, index1);
    let n2 = file_name(stem2, index2);
    lemma_decimal_digits(index1);
    lemma_decimal_digits(index2);
    if n1 == n2 {
        let len = n1.len() as int;
        assert(len == stem1.len() + 1 + d1.len() + 4);
        assert(len == stem2.len() + 1 + d2.len() + 4);
        // The underscore of each name stands just before its digits.
        assert(n1[stem1.len() as int] == '_');
        assert(n2[stem2.len() as int] == '_');
        if d1.len() < d2.len() {
            let k = stem1.len() as int - stem2.len() as int - 1;
            assert(n2[stem1.len() as int] == d2[k]);
            assert(is_digit(d2[k]));
        } else if d2.len() < d1.len() {
            let k = stem2.len() as int - stem1.len() as int - 1;
            assert(n1[stem2.len() as int] == d1[k]);
            assert(is_digit(d1[k]));
        } else {
            assert forall|i: int| 0 <= i < d1.len() implies d1[i] == d2[i] by {
                assert(n1[stem1.len() + 1 + i] == d1[i]);
                assert(n2[stem2.len() + 1 + i] == d2[i]);
            }
            assert(d1 =~= d2);
            lemma_decimal_injective(index1, index2);
        }
    }
}

fn digit_text(d: usize) -> (text: &'static str)
    requires
        d < 10,
    ensures
        text@ == seq![digit_char(d as int)],
{
    proof {
        reveal_strlit("0");
        reveal_strlit("1");
        reveal_strlit("2");
        reveal_strlit("3");
        reveal_strlit("4");
        reveal_strlit("5");
        reveal_strlit("6");
        reveal_strlit("7");
        reveal_strlit("8");
        reveal_strlit("9");
    }
    let text: &'static str = if d == 0 {
        "0"
    } else if d == 1 {
        "1"
    } else if d == 2 {
        "2"
    } else if d == 3 {
        "3"
    } else if d == 4 {
        "4"
    } else if d == 5 {
        "5"
    } else if d == 6 {
        "6"
    } else if d == 7 {
        "7"
    } else if d == 8 {
        "8"
    } else {
        "9"
    };
    assert(text@ =~= seq![digit_char(d as int)]);
    text
}

/// Appends a number in decimal to a text.
pub fn push_decimal(out: &mut String, n: usize)
    ensures
        final(out)@ == old(out)@ + decimal(n as nat),
    decreases n,
{
    if n >= 10 {
        push_decimal(out, n / 10);
    }
    let ghost before = out@;
    out.append(digit_text(n % 10));
    proof {
        if n >= 10 {
            assert(before + seq![digit_char((n % 10) as int)] =~= old(out)@ + decimal(n as nat));
        } else {
            assert(before + seq![digit_char((n % 10) as int)] =~= old(out)@ + decimal(n as nat));
        }
    }
}

/// The name of the output file for the input with the given stem at
/// position `index` of the batch.
pub fn output_file_name(stem: &str, index: usize) -> (name: String)
    ensures
        name@ == file_name(stem@, index as nat),
{
    proof {
        reveal_strlit("_");
        reveal_strlit(".png");
    }
    let mut name: String = String::from_str(stem);
    name.append("_");
    push_decimal(&mut name, index);
    name.append(".png");
    assert(name@ =~= file_name(stem@, index as nat));
    name
}

} // verus!
