//! Strings put together from pieces.

use vstd::prelude::*;
use vstd::string::*;

verus! {

/// The decimal digits of a number.
pub open spec fn decimal_digits(n: nat) -> Seq<char>
    decreases n,
{
    if n < 10 {
        seq![('0' as nat + n) as char]
    } else {
        decimal_digits(n / 10).push(('0' as nat + n % 10) as char)
    }
}

/// One decimal digit.
fn digit(n: u64) -> (text: &'static str)
    requires
        n < 10,
    ensures
        text@ == seq![('0' as nat + n) as char],
{
    proof {
        reveal_strlit("0");
        reveal_strlit("1");
        reveal_strlit("2");
        reveal_strlit("3");
        reveal_strlit("4");
        reveal_strlit("5");
        reveal_strlit("6");
        reveal_strlit("7");
        reveal_strlit("8");
        reveal_strlit("9");
    }
    let text: &'static str = match n {
        0 => "0",
        1 => "1",
        2 => "2",
        3 => "3",
        4 => "4",
        5 => "5",
        6 => "6",
        7 => "7",
        8 => "8",
        _ => "9",
    };
    assert(text@ =~= seq![('0' as nat + n) as char]);
    text
}

/// A number in decimal notation.
pub fn decimal(n: u64) -> (text: String)
    ensures
        text@ == decimal_digits(n as nat),
    decreases n,
{
    if n < 10 {
        digit(n).to_owned()
    } else {
        let mut text: String = decimal(n / 10);
        text.append(digit(n % 10));
        assert(text@ =~= decimal_digits(n as nat));
        text
    }
}

/// `prefix`, then `name`, then `suffix`.
pub fn surround(prefix: &str, name: &str, suffix: &str) -> (text: String)
    ensures
        text@ == prefix@ + name@ + suffix@,
{
    let mut text: String = prefix.to_owned();
    text.append(name);
    text.append(suffix);
    text
}

/// Whether two strings hold the same characters.
pub fn same_text(left: &str, right: &str) -> (same: bool)
    ensures
        same == (left@ == right@),
{
    left.to_owned() == right.to_owned()
}

/// The digits of a number: a number below ten is its own digit, and a longer one is the number
/// without its last digit, then that digit.
pub proof fn law_decimal(n: u64, text: String, shorter: String)
    requires
        call_ensures(decimal, (n,), text),
        call_ensures(decimal, (n / 10,), shorter),
    ensures
        text@.len() >= 1,
        text@.last() as int == 48 + n % 10,
        n < 10 ==> text@.len() == 1,
        n >= 10 ==> text@.drop_last() == shorter@,
{
    if n >= 10 {
        assert(text@.drop_last() =~= decimal_digits(n as nat / 10));
    }
}

/// Three pieces stand one after the other, each as it was.
pub proof fn law_surround(prefix: &str, name: &str, suffix: &str, text: String)
    requires
        call_ensures(surround, (prefix, name, suffix), text),
    ensures
        text@.len() == prefix@.len() + name@.len() + suffix@.len(),
        text@.take(prefix@.len() as int) == prefix@,
        text@.subrange(prefix@.len() as int, (prefix@.len() + name@.len()) as int) == name@,
        text@.skip((prefix@.len() + name@.len()) as int) == suffix@,
{
    assert(text@.take(prefix@.len() as int) =~= prefix@);
    assert(text@.subrange(prefix@.len() as int, (prefix@.len() + name@.len()) as int) =~= name@);
    assert(text@.skip((prefix@.len() + name@.len()) as int) =~= suffix@);
}

/// Two texts are the same just when they are as long and agree in every place.
pub proof fn law_same_text(left: &str, right: &str, same: bool)
    requires
        call_ensures(same_text, (left, right), same),
    ensures
        same <==> {
            &&& left@.len() == right@.len()
            &&& forall|i: int| 0 <= i < left@.len() ==> #[trigger] left@[i] == right@[i]
        },
{
    if !same && left@.len() == right@.len() {
        if forall|i: int| 0 <= i < left@.len() ==> #[trigger] left@[i] == right@[i] {
            assert(left@ =~= right@);
        }
    }
}

} // verus!
