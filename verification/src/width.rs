use vstd::prelude::*;

verus! {

/// The number of display columns that one character occupies, with a
/// control character counting as zero columns.
pub uninterp spec fn char_width(c: char) -> nat;

/// Relies on `unicode_width::UnicodeWidthChar::width`: the column width of a
/// character depends on the character alone; it is never more than three
/// columns, a printable ASCII character such as a space or a full stop is
/// exactly one column wide, and a control character (`None`) counts as zero
/// columns here.
#[verifier::external_body]
pub(crate) fn measure_char(c: char) -> (r: usize)
    ensures
        r == char_width(c),
        r <= 3,
        c == ' ' ==> r == 1,
        c == '.' ==> r == 1,
{
    unicode_width::UnicodeWidthChar::width(c).unwrap_or(0)
}

/// The display width of a sequence of characters: the sum of the widths of
/// its characters.
pub open spec fn seq_width(s: Seq<char>) -> nat
    decreases s.len(),
{
    if s.len() == 0 {
        0
    } else {
        char_width(s.first()) + seq_width(s.drop_first())
    }
}

pub proof fn lemma_seq_width_concat(a: Seq<char>, b: Seq<char>)
    ensures
        seq_width(a + b) == seq_width(a) + seq_width(b),
    decreases a.len(),
{
    if a.len() == 0 {
        assert(a + b =~= b);
    } else {
        assert((a + b).drop_first() =~= a.drop_first() + b);
        lemma_seq_width_concat(a.drop_first(), b);
    }
}

pub proof fn lemma_seq_width_push(s: Seq<char>, c: char)
    ensures
        seq_width(s.push(c)) == seq_width(s) + char_width(c),
{
    assert(s.push(c) =~= s + seq![c]);
    lemma_seq_width_concat(s, seq![c]);
    assert(seq![c].drop_first() =~= Seq::<char>::empty());
    assert(seq![c].first() == c);
    assert(seq_width(seq![c]) == char_width(c) + seq_width(Seq::<char>::empty()));
}

} // verus!
