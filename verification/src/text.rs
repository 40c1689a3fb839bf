use unicode_segmentation::UnicodeSegmentation;
use vstd::prelude::*;
use vstd::string::StringExecFns;

verus! {

/// The number of extended grapheme clusters that `unicode_segmentation` finds
/// in `text`.
pub uninterp spec fn grapheme_count(text: Seq<char>) -> nat;

/// `UnicodeSegmentation::graphemes` with extended clusters, counted: a number
/// that depends on the text alone.
#[verifier::external_body]
pub(crate) fn count_graphemes(text: &str) -> (count: usize)
    ensures
        count == grapheme_count(text@),
{
    text.graphemes(true).count()
}

/// The character of a decimal digit.
pub open spec fn digit(d: nat) -> char {
    if d == 0 {
        '0'
    } else if d == 1 {
        '1'
    } else if d == 2 {
        '2'
    } else if d == 3 {
        '3'
    } else if d == 4 {
        '4'
    } else if d == 5 {
        '5'
    } else if d == 6 {
        '6'
    } else if d == 7 {
        '7'
    } else if d == 8 {
        '8'
    } else {
        '9'
    }
}

/// `n` in decimal, without leading zeros.
pub open spec fn decimal(n: nat) -> Seq<char>
    decreases n,
{
    if n < 10 {
        seq![digit(n)]
    } else {
        decimal(n / 10).push(digit(n % 10))
    }
}

/// The heading of a warning about `count` copies of one content in the target tree.
pub open spec fn instances_heading(count: nat) -> Seq<char> {
    "Warning: Hash has "@ + decimal(count) + " instances in target folder:"@
}

/// The line that lists `path` under a warning's heading.
pub open spec fn listed(path: Seq<char>) -> Seq<char> {
    "  - "@ + path
}

fn digit_text(d: usize) -> (text: &'static str)
    requires
        d < 10,
    ensures
        text@ == seq![digit(d as nat)],
{
    proof {
        reveal_strlit("0");
        reveal_strlit("1");
        reveal_strlit("2");
        reveal_strlit("3");
        reveal_strlit("4");
        reveal_strlit("5");
        reveal_strlit("6");
        reveal_strlit("7");
        reveal_strlit("8");
        reveal_strlit("9");
    }
    let text = if d == 0 {
        "0"
    } else if d == 1 {
        "1"
    } else if d == 2 {
        "2"
    } else if d == 3 {
        "3"
    } else if d == 4 {
        "4"
    } else if d == 5 {
        "5"
    } else if d == 6 {
        "6"
    } else if d == 7 {
        "7"
    } else if d == 8 {
        "8"
    } else {
        "9"
    };
    assert(text@ =~= seq![digit(d as nat)]);
    text
}

/// `n` written in decimal.
pub fn decimal_string(n: usize) -> (text: String)
    ensures
        text@ == decimal(n as nat),
    decreases n,
{
    if n < 10 {
        String::from_str(digit_text(n))
    } else {
        let mut text = decimal_string(n / 10);
        text.append(digit_text(n % 10));
        assert(text@ =~= decimal(n as nat));
        text
    }
}

/// The heading of a warning about `count` copies of one content in the target tree.
pub fn instances_warning(count: usize) -> (text: String)
    ensures
        text@ == instances_heading(count as nat),
{
    let mut text = String::from_str("Warning: Hash has ");
    let number = decimal_string(count);
    text.append(number.as_str());
    text.append(" instances in target folder:");
    text
}

/// The line that lists `path` under a warning's heading.
pub fn listed_path(path: &String) -> (text: String)
    ensures
        text@ == listed(path@),
{
    let mut text = String::from_str("  - ");
    text.append(path.as_str());
    text
}

} // verus!
