//! Building text one piece at a time.

use vstd::prelude::*;
use vstd::string::StringExecFns;

verus! {

/// The decimal digit that stands for `d`, for `d` below ten.
pub open spec fn digit_char(d: nat) -> char {
    if d == 0 {
        '0'
    } else if d == 1 {
        '1'
    } else if d == 2 {
        '2'
    } else if d == 3 {
        '3'
    } else if d == 4 {
        '4'
    } else if d == 5 {
        '5'
    } else if d == 6 {
        '6'
    } else if d == 7 {
        '7'
    } else if d == 8 {
        '8'
    } else {
        '9'
    }
}

/// The decimal numeral of `n`, most significant digit first, without leading zeros.
pub open spec fn decimal_digits(n: nat) -> Seq<char>
    decreases n,
{
    if n < 10 {
        seq![digit_char(n)]
    } else {
        decimal_digits(n / 10).push(digit_char(n % 10))
    }
}

/// `String::push` appends one character to the end of the string.
#[verifier::external_body]
pub(crate) fn push_char(s: &mut String, c: char)
    ensures
        final(s)@ == old(s)@.push(c),
{
    s.push(c)
}

fn digit(d: u64) -> (c: char)
    requires
        d < 10,
    ensures
        c == digit_char(d as nat),
{
    if d == 0 {
        '0'
    } else if d == 1 {
        '1'
    } else if d == 2 {
        '2'
    } else if d == 3 {
        '3'
    } else if d == 4 {
        '4'
    } else if d == 5 {
        '5'
    } else if d == 6 {
        '6'
    } else if d == 7 {
        '7'
    } else if d == 8 {
        '8'
    } else {
        '9'
    }
}

/// Writes `n` as a decimal numeral.
pub fn decimal_u64(n: u64) -> (r: String)
    ensures
        r@ == decimal_digits(n as nat),
    decreases n,
{
    if n < 10 {
        let mut r = String::new();
        push_char(&mut r, digit(n));
        assert(r@ =~= seq![digit_char(n as nat)]);
        r
    } else {
        let mut r = decimal_u64(n / 10);
        push_char(&mut r, digit(n % 10));
        r
    }
}

/// Writes `n` as a decimal numeral.
pub fn decimal(n: usize) -> (r: String)
    ensures
        r@ == decimal_digits(n as nat),
{
    decimal_u64(n as u64)
}

/// What a list of texts holds.
pub open spec fn text_views(texts: Seq<String>) -> Seq<Seq<char>> {
    texts.map_values(|text: String| text@)
}

/// One line for each item, each behind `indent` and followed by a comma.
pub open spec fn leading_lines(indent: Seq<char>, items: Seq<Seq<char>>) -> Seq<char>
    decreases items.len(),
{
    if items.len() == 0 {
        Seq::empty()
    } else {
        leading_lines(indent, items.drop_last()) + indent + items.last() + ",\n"@
    }
}

/// One line for each item, each behind `indent`, with a comma after every item but the
/// last.
pub open spec fn comma_lines(indent: Seq<char>, items: Seq<Seq<char>>) -> Seq<char> {
    if items.len() == 0 {
        Seq::empty()
    } else {
        leading_lines(indent, items.drop_last()) + indent + items.last() + "\n"@
    }
}

/// Appends one line for each item, with a comma after every item but the last.
pub fn append_comma_lines(out: &mut String, indent: &str, items: &Vec<String>)
    ensures
        final(out)@ == old(out)@ + comma_lines(indent@, text_views(items@)),
{
    let ghost all = text_views(items@);
    let mut i: usize = 0;
    while i < items.len()
        invariant
            i <= items.len(),
            all == text_views(items@),
            out@ == old(out)@ + if i == items.len() {
                comma_lines(indent@, all)
            } else {
                leading_lines(indent@, all.take(i as int))
            },
        decreases items.len() - i,
    {
        out.append(indent);
        out.append(items[i].as_str());
        if i + 1 < items.len() {
            out.append(",\n");
            proof {
                assert(all.take(i + 1).drop_last() =~= all.take(i as int));
                assert(all.take(i + 1).last() == items@[i as int]@);
                assert(out@ =~= old(out)@ + leading_lines(indent@, all.take(i + 1)));
            }
        } else {
            out.append("\n");
            proof {
                assert(all.drop_last() =~= all.take(i as int));
                assert(all.last() == items@[i as int]@);
                assert(out@ =~= old(out)@ + comma_lines(indent@, all));
            }
        }
        i = i + 1;
    }
    proof {
        if items.len() == 0 {
            assert(out@ =~= old(out)@ + comma_lines(indent@, all));
        }
    }
}

} // verus!
