//! Text as sequences of characters.

use vstd::prelude::*;

verus! {

/// The character sequences of `texts`, position by position.
pub open spec fn text_views(texts: Seq<String>) -> Seq<Seq<char>> {
    texts.map_values(|text: String| text@)
}

/// Appending a text appends its character sequence.
pub proof fn lemma_text_views_push(texts: Seq<String>, text: String)
    ensures
        text_views(texts.push(text)) == text_views(texts).push(text@),
{
    assert(text_views(texts.push(text)) =~= text_views(texts).push(text@));
}

/// Appends copies of `more` to `texts`.
pub fn append_texts(texts: &mut Vec<String>, more: &Vec<String>)
    ensures
        text_views(final(texts)@) == text_views(old(texts)@) + text_views(more@),
{
    let mut m: usize = 0;
    assert(text_views(more@).take(0) =~= Seq::<Seq<char>>::empty());
    while m < more.len()
        invariant
            m <= more@.len(),
            text_views(texts@) == text_views(old(texts)@) + text_views(more@).take(m as int),
        decreases more@.len() - m,
    {
        let text = more[m].clone();
        proof {
            lemma_text_views_push(texts@, text);
        }
        texts.push(text);
        assert(text_views(texts@) =~= text_views(old(texts)@) + text_views(more@).take(m + 1));
        m += 1;
    }
    assert(text_views(more@).take(more@.len() as int) =~= text_views(more@));
}

/// The decimal digit for a value in `0..10`.
pub open spec fn digit_char(value: nat) -> char {
    seq!['0', '1', '2', '3', '4', '5', '6', '7', '8', '9'][value as int]
}

/// The decimal numeral of `n`, without leading zeros.
pub open spec fn decimal(n: nat) -> Seq<char>
    decreases n,
{
    if n < 10 {
        seq![digit_char(n)]
    } else {
        decimal(n / 10).push(digit_char(n % 10))
    }
}

/// The one-character text of a decimal digit.
fn digit_text(value: usize) -> (text: &'static str)
    requires
        value < 10,
    ensures
        text@ == seq![digit_char(value as nat)],
{
    proof {
        reveal_strlit("0");
        reveal_strlit("1");
        reveal_strlit("2");
        reveal_strlit("3");
        reveal_strlit("4");
        reveal_strlit("5");
        reveal_strlit("6");
        reveal_strlit("7");
        reveal_strlit("8");
        reveal_strlit("9");
    }
    let text = match value {
        0 => "0",
        1 => "1",
        2 => "2",
        3 => "3",
        4 => "4",
        5 => "5",
        6 => "6",
        7 => "7",
        8 => "8",
        _ => "9",
    };
    assert(text@ =~= seq![digit_char(value as nat)]);
    text
}

/// The decimal numeral of `n` as text.
pub fn decimal_text(n: usize) -> (text: String)
    ensures
        text@ == decimal(n as nat),
    decreases n,
{
    if n < 10 {
        String::from_str(digit_text(n))
    } else {
        let mut text = decimal_text(n / 10);
        text.append(digit_text(n % 10));
        text
    }
}

} // verus!
