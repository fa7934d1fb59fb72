use vstd::prelude::*;
use crate::width::{char_width, measure_char, seq_width, lemma_seq_width_concat, lemma_seq_width_push};
use vstd::string::{StrSliceExecFns, StringExecFns};

verus! {

/// True of the two characters that separate the components of a path.
pub open spec fn is_separator(c: char) -> bool {
    c == '/' || c == '\\'
}

/// True when some character of the text is a path separator.
pub open spec fn has_separator(s: Seq<char>) -> bool {
    exists|i: int| 0 <= i < s.len() && is_separator(s[i])
}

/// The maximal run of non-separator characters that ends the text: empty
/// when the text ends in a separator, the text itself when it holds no
/// separator at all.
pub open spec fn suffix_after_last_separator(s: Seq<char>) -> Seq<char>
    decreases s.len(),
{
    if s.len() == 0 {
        s
    } else if is_separator(s.last()) {
        Seq::empty()
    } else {
        suffix_after_last_separator(s.drop_last()).push(s.last())
    }
}

/// A text without separators is its own final run.
pub proof fn lemma_suffix_no_separator(s: Seq<char>)
    requires
        !has_separator(s),
    ensures
        suffix_after_last_separator(s) == s,
    decreases s.len(),
{
    if s.len() == 0 {
    } else {
        assert(!is_separator(s.last()));
        assert(!has_separator(s.drop_last()));
        lemma_suffix_no_separator(s.drop_last());
        assert(s.drop_last().push(s.last()) =~= s);
    }
}

/// The final run never contains a separator.
pub proof fn lemma_suffix_separator_free(s: Seq<char>)
    ensures
        !has_separator(suffix_after_last_separator(s)),
    decreases s.len(),
{
    if s.len() == 0 {
    } else if is_separator(s.last()) {
    } else {
        lemma_suffix_separator_free(s.drop_last());
        let c = suffix_after_last_separator(s.drop_last());
        assert forall|i: int| 0 <= i < c.push(s.last()).len() implies !is_separator(
            c.push(s.last())[i],
        ) by {
            if i < c.len() {
                assert(!has_separator(c));
            }
        }
    }
}

/// When the last separator of the text stands at position `j`, the final
/// run is the part after it.
pub proof fn lemma_suffix_after_last_separator(s: Seq<char>, j: int)
    requires
        0 <= j < s.len(),
        is_separator(s[j]),
        forall|k: int| j < k < s.len() ==> !is_separator(s[k]),
    ensures
        suffix_after_last_separator(s) == s.subrange(j + 1, s.len() as int),
    decreases s.len(),
{
    if j == s.len() - 1 {
        assert(is_separator(s.last()));
        assert(s.subrange(j + 1, s.len() as int) =~= Seq::<char>::empty());
    } else {
        assert(!is_separator(s.last()));
        lemma_suffix_after_last_separator(s.drop_last(), j);
        assert(suffix_after_last_separator(s) == suffix_after_last_separator(
            s.drop_last(),
        ).push(s.last()));
        assert(s.drop_last().subrange(j + 1, s.len() - 1).push(s.last()) =~= s.subrange(
            j + 1,
            s.len() as int,
        ));
    }
}

/// The final path component of the text: trailing separators are skipped,
/// a bare `.` component is skipped too, and the result is empty when
/// nothing remains or when the last component is `..`.
pub open spec fn final_component(s: Seq<char>) -> Seq<char>
    decreases s.len(),
{
    if s.len() == 0 {
        Seq::empty()
    } else if is_separator(s.last()) {
        final_component(s.drop_last())
    } else {
        let c = suffix_after_last_separator(s);
        if c == seq!['.'] {
            final_component(s.drop_last())
        } else if c == seq!['.', '.'] {
            Seq::empty()
        } else {
            c
        }
    }
}

/// The bucket label of a window title: a title without separators is its
/// own label; otherwise the final path component, or the title unchanged
/// when no component remains (all separators and `.` components, or a
/// trailing `..`).
pub open spec fn clean_label_spec(s: Seq<char>) -> Seq<char> {
    if !has_separator(s) {
        s
    } else if final_component(s).len() == 0 {
        s
    } else {
        final_component(s)
    }
}

/// A final component never contains a separator.
pub proof fn lemma_final_component_separator_free(s: Seq<char>)
    ensures
        !has_separator(final_component(s)),
    decreases s.len(),
{
    if s.len() == 0 {
    } else if is_separator(s.last()) {
        lemma_final_component_separator_free(s.drop_last());
    } else {
        let c = suffix_after_last_separator(s);
        if c == seq!['.'] {
            lemma_final_component_separator_free(s.drop_last());
        } else if c == seq!['.', '.'] {
        } else {
            lemma_suffix_separator_free(s);
        }
    }
}

/// A nonempty title never cleans to the empty label.
pub proof fn lemma_clean_label_nonempty(s: Seq<char>)
    requires
        s.len() > 0,
    ensures
        clean_label_spec(s).len() > 0,
{
}

/// Cleaning a label twice gives the same text as cleaning it once.
pub proof fn lemma_clean_label_idempotent(s: Seq<char>)
    ensures
        clean_label_spec(clean_label_spec(s)) == clean_label_spec(s),
{
    if has_separator(s) && final_component(s).len() > 0 {
        lemma_final_component_separator_free(s);
    }
}

/// The bucket label of a window title: the final path component when the
/// title looks like a path, the title itself otherwise.
#[verifier::loop_isolation(false)]
pub fn clean_label(title: &str) -> (r: String)
    ensures
        r@ == clean_label_spec(title@),
{
    let n = title.unicode_len();
    let mut i: usize = 0;
    let mut cut: usize = 0;
    while i < n
        invariant
            0 <= i <= n,
            cut <= i,
            cut == 0 ==> forall|k: int| 0 <= k < i ==> !is_separator(title@[k]),
            cut > 0 ==> is_separator(title@[cut - 1]) && forall|k: int|
                cut <= k < i ==> !is_separator(title@[k]),
        decreases n - i,
    {
        let c = title.get_char(i);
        if c == '/' || c == '\\' {
            cut = i + 1;
        }
        i += 1;
    }
    if cut == 0 {
        // no separator: the title is its own label
        proof {
            assert(!has_separator(title@));
        }
        return title.to_owned();
    }
    assert(has_separator(title@));
    // walk back over trailing separators and `.` components until a real
    // component, a `..`, or nothing is left
    let mut end: usize = n;
    proof {
        assert(title@.subrange(0, n as int) =~= title@);
    }
    while end > 0
        invariant
            end <= n,
            final_component(title@) == final_component(title@.subrange(0, end as int)),
        decreases end,
    {
        let ghost t = title@.subrange(0, end as int);
        let c = title.get_char(end - 1);
        proof {
            assert(t.last() == title@[end - 1]);
        }
        if c == '/' || c == '\\' {
            proof {
                assert(t.drop_last() =~= title@.subrange(0, end - 1));
            }
            end -= 1;
        } else {
            // find where the final run of this prefix begins
            let mut start: usize = 0;
            let mut j: usize = 0;
            while j < end
                invariant
                    0 <= j <= end,
                    start <= j,
                    start == 0 ==> forall|k: int| 0 <= k < j ==> !is_separator(title@[k]),
                    start > 0 ==> is_separator(title@[start - 1]) && forall|k: int|
                        start <= k < j ==> !is_separator(title@[k]),
                decreases end - j,
            {
                let p = title.get_char(j);
                if p == '/' || p == '\\' {
                    start = j + 1;
                }
                j += 1;
            }
            proof {
                assert(start < end);
                if start == 0 {
                    assert(!has_separator(t));
                    lemma_suffix_no_separator(t);
                    assert(t.subrange(0, end as int) =~= t);
                } else {
                    assert(t[start - 1] == title@[start - 1]);
                    lemma_suffix_after_last_separator(t, start - 1);
                }
                assert(suffix_after_last_separator(t) =~= title@.subrange(
                    start as int,
                    end as int,
                ));
            }
            let ghost run = suffix_after_last_separator(t);
            if end - start == 1 && title.get_char(start) == '.' {
                // a bare `.` component: skip it
                proof {
                    assert(run =~= seq!['.']);
                    assert(t.drop_last() =~= title@.subrange(0, end - 1));
                }
                end -= 1;
            } else if end - start == 2 && title.get_char(start) == '.' && title.get_char(
                start + 1,
            ) == '.' {
                // the last component is `..`: keep the title as the label
                proof {
                    assert(run =~= seq!['.', '.']);
                    assert(final_component(t).len() == 0);
                }
                return title.to_owned();
            } else {
                proof {
                    assert(run[0] == title@[start as int]);
                    if run.len() == 1 {
                        assert(title@[start as int] != '.');
                        assert(run != seq!['.']);
                    }
                    if run.len() == 2 {
                        assert(run[1] == title@[start + 1]);
                        assert(run != seq!['.', '.']);
                    }
                    assert(final_component(t) == run);
                    assert(clean_label_spec(title@) == run);
                }
                return title.substring_char(start, end).to_owned();
            }
        }
    }
    // only separators and `.` components: the title is its own label
    proof {
        assert(title@.subrange(0, 0) =~= Seq::<char>::empty());
        assert(final_component(title@).len() == 0);
    }
    title.to_owned()
}

/// The decimal digit `d` as a character.
pub open spec fn digit_char(d: nat) -> char {
    if d == 0 {
        '0'
    } else if d == 1 {
        '1'
    } else if d == 2 {
        '2'
    } else if d == 3 {
        '3'
    } else if d == 4 {
        '4'
    } else if d == 5 {
        '5'
    } else if d == 6 {
        '6'
    } else if d == 7 {
        '7'
    } else if d == 8 {
        '8'
    } else {
        '9'
    }
}

/// The value of a decimal digit character; zero on any other character.
pub open spec fn digit_val(c: char) -> nat {
    if c == '1' {
        1
    } else if c == '2' {
        2
    } else if c == '3' {
        3
    } else if c == '4' {
        4
    } else if c == '5' {
        5
    } else if c == '6' {
        6
    } else if c == '7' {
        7
    } else if c == '8' {
        8
    } else if c == '9' {
        9
    } else {
        0
    }
}

/// The decimal digits of `n`, most significant first, without leading
/// zeroes (a single zero for `n == 0`).
pub open spec fn dec_digits(n: nat) -> Seq<char>
    decreases n,
{
    if n < 10 {
        seq![digit_char(n)]
    } else {
        dec_digits(n / 10).push(digit_char(n % 10))
    }
}

/// The decimal digits of `n`, zero-padded on the left to at least two
/// digits.
pub open spec fn padded_digits(n: nat) -> Seq<char> {
    if n < 10 {
        seq!['0'] + dec_digits(n)
    } else {
        dec_digits(n)
    }
}

/// A duration of `secs` whole seconds written as zero-padded
/// hours, minutes and seconds, `HH:MM:SS`, with unbounded hours.
pub open spec fn format_elapsed_spec(secs: nat) -> Seq<char> {
    padded_digits(secs / 3600) + seq![':'] + padded_digits((secs % 3600) / 60) + seq![':']
        + padded_digits(secs % 60)
}

/// The total seconds read back from an eight-character `HH:MM:SS` text.
pub open spec fn parse_hms(s: Seq<char>) -> nat
    recommends
        s.len() == 8,
{
    (digit_val(s[0]) * 10 + digit_val(s[1])) * 3600 + (digit_val(s[3]) * 10 + digit_val(s[4])) * 60
        + digit_val(s[6]) * 10 + digit_val(s[7])
}

/// The one-character text of a decimal digit.
fn digit_str(d: u64) -> (r: &'static str)
    requires
        d < 10,
    ensures
        r@ == seq![digit_char(d as nat)],
{
    if d == 0 {
        proof {
            reveal_strlit("0");
            assert("0"@ =~= seq![digit_char(0)]);
        }
        "0"
    } else if d == 1 {
        proof {
            reveal_strlit("1");
            assert("1"@ =~= seq![digit_char(1)]);
        }
        "1"
    } else if d == 2 {
        proof {
            reveal_strlit("2");
            assert("2"@ =~= seq![digit_char(2)]);
        }
        "2"
    } else if d == 3 {
        proof {
            reveal_strlit("3");
            assert("3"@ =~= seq![digit_char(3)]);
        }
        "3"
    } else if d == 4 {
        proof {
            reveal_strlit("4");
            assert("4"@ =~= seq![digit_char(4)]);
        }
        "4"
    } else if d == 5 {
        proof {
            reveal_strlit("5");
            assert("5"@ =~= seq![digit_char(5)]);
        }
        "5"
    } else if d == 6 {
        proof {
            reveal_strlit("6");
            assert("6"@ =~= seq![digit_char(6)]);
        }
        "6"
    } else if d == 7 {
        proof {
            reveal_strlit("7");
            assert("7"@ =~= seq![digit_char(7)]);
        }
        "7"
    } else if d == 8 {
        proof {
            reveal_strlit("8");
            assert("8"@ =~= seq![digit_char(8)]);
        }
        "8"
    } else {
        proof {
            reveal_strlit("9");
            assert("9"@ =~= seq![digit_char(9)]);
        }
        "9"
    }
}

/// Appends the decimal digits of `n` to `out`.
fn append_decimal(out: &mut String, n: u64)
    ensures
        final(out)@ == old(out)@ + dec_digits(n as nat),
    decreases n,
{
    if n < 10 {
        out.append(digit_str(n));
    } else {
        append_decimal(out, n / 10);
        out.append(digit_str(n % 10));
        proof {
            assert(dec_digits(n as nat) == dec_digits(n as nat / 10).push(
                digit_char(n as nat % 10),
            ));
            assert(old(out)@ + dec_digits(n as nat / 10) + seq![digit_char(n as nat % 10)]
                =~= old(out)@ + dec_digits(n as nat));
        }
    }
}

/// Appends the decimal digits of `n` to `out`, zero-padded to at least two
/// digits.
fn append_padded(out: &mut String, n: u64)
    ensures
        final(out)@ == old(out)@ + padded_digits(n as nat),
{
    if n < 10 {
        proof {
            reveal_strlit("0");
        }
        out.append("0");
        out.append(digit_str(n));
        proof {
            assert("0"@ =~= seq!['0']);
            assert(old(out)@ + "0"@ + seq![digit_char(n as nat)] =~= old(out)@ + padded_digits(
                n as nat,
            ));
        }
    } else {
        append_decimal(out, n);
    }
}

/// Writes a duration of `total_secs` whole seconds as `HH:MM:SS`:
/// zero-padded hours (unbounded), minutes and seconds.
pub fn format_elapsed(total_secs: u64) -> (r: String)
    ensures
        r@ == format_elapsed_spec(total_secs as nat),
{
    let hours = total_secs / 3600;
    let minutes = (total_secs % 3600) / 60;
    let seconds = total_secs % 60;
    let mut out = String::new();
    append_padded(&mut out, hours);
    proof {
        reveal_strlit(":");
        assert(":"@ =~= seq![':']);
    }
    out.append(":");
    append_padded(&mut out, minutes);
    out.append(":");
    append_padded(&mut out, seconds);
    proof {
        assert(out@ =~= format_elapsed_spec(total_secs as nat));
    }
    out
}

/// Reading a digit character back gives the digit.
proof fn lemma_digit_round_trip(d: nat)
    requires
        d < 10,
    ensures
        digit_val(digit_char(d)) == d,
{
}

/// For values below one hundred, the padded digits are exactly two, and
/// they read back as the value.
proof fn lemma_padded_digits_small(n: nat)
    requires
        n < 100,
    ensures
        padded_digits(n).len() == 2,
        digit_val(padded_digits(n)[0]) * 10 + digit_val(padded_digits(n)[1]) == n,
{
    if n < 10 {
        lemma_digit_round_trip(n);
        assert(padded_digits(n)[0] == '0');
        assert(padded_digits(n)[1] == digit_char(n));
    } else {
        assert(dec_digits(n) == dec_digits(n / 10).push(digit_char(n % 10)));
        assert(n / 10 < 10);
        lemma_digit_round_trip(n / 10);
        lemma_digit_round_trip(n % 10);
        assert(padded_digits(n)[0] == digit_char(n / 10));
        assert(padded_digits(n)[1] == digit_char(n % 10));
        assert(digit_val(digit_char(n / 10)) * 10 + digit_val(digit_char(n % 10)) == n) by {
            assert(n == (n / 10) * 10 + n % 10) by (nonlinear_arith);
        }
    }
}

/// A run of `n` spaces.
pub open spec fn spaces(n: nat) -> Seq<char>
    decreases n,
{
    if n == 0 {
        Seq::empty()
    } else {
        spaces((n - 1) as nat).push(' ')
    }
}

/// The three-dot marker appended to a truncated label.
pub open spec fn ellipsis() -> Seq<char> {
    seq!['.', '.', '.']
}

/// The number of leading characters of `s` kept in a column `w` wide: the
/// count stops at the first character whose width no longer fits.
pub open spec fn fit_len(s: Seq<char>, w: int) -> int
    decreases s.len(),
{
    if s.len() == 0 {
        0
    } else if char_width(s.first()) > w {
        0
    } else {
        1 + fit_len(s.drop_first(), w - char_width(s.first()))
    }
}

/// The text shown for a label in a column `w` wide: the label padded with
/// spaces to exactly `w` columns when it fits, otherwise the longest
/// leading part that fits, marked with a trailing ellipsis.
pub open spec fn fit_spec(s: Seq<char>, w: int) -> Seq<char> {
    if seq_width(s) <= w {
        s + spaces((w - seq_width(s)) as nat)
    } else {
        s.subrange(0, fit_len(s, w)) + ellipsis()
    }
}

proof fn lemma_spaces_props(n: nat)
    requires
        char_width(' ') == 1,
    ensures
        spaces(n).len() == n,
        seq_width(spaces(n)) == n,
    decreases n,
{
    if n > 0 {
        lemma_spaces_props((n - 1) as nat);
        lemma_seq_width_push(spaces((n - 1) as nat), ' ');
    }
}

proof fn lemma_ellipsis_width()
    requires
        char_width('.') == 1,
    ensures
        seq_width(ellipsis()) == 3,
{
    assert(seq_width(ellipsis()) == char_width('.') + seq_width(ellipsis().drop_first()));
    assert(ellipsis().drop_first() =~= seq!['.', '.']);
    assert(seq!['.', '.'].drop_first() =~= seq!['.']);
    assert(seq!['.'].drop_first() =~= Seq::<char>::empty());
    assert(seq_width(seq!['.', '.']) == char_width('.') + seq_width(seq!['.']));
    assert(seq_width(seq!['.']) == char_width('.') + seq_width(Seq::<char>::empty()));
}

/// Fits a window title into a fixed-width column: the cleaned title is
/// right-padded with spaces to exactly `max_width` display columns, or
/// truncated with a trailing ellipsis when it is too wide.  The result is
/// never wider than `max_width + 3` columns, and is exactly `max_width`
/// columns whenever the cleaned title fits.
pub fn fit_width(title: &str, max_width: usize) -> (r: String)
    ensures
        r@ == fit_spec(clean_label_spec(title@), max_width as int),
        seq_width(r@) <= max_width + 3,
        seq_width(clean_label_spec(title@)) <= max_width ==> seq_width(r@) == max_width,
{
    let clean = clean_label(title);
    let ghost c = clean@;
    let n = clean.as_str().unicode_len();
    let mut i: usize = 0;
    let mut w: usize = 0;
    proof {
        assert(c.subrange(0, 0) =~= Seq::<char>::empty());
        assert(c.subrange(0, n as int) =~= c);
    }
    while i < n
        invariant
            clean@ == c,
            c == clean_label_spec(title@),
            n == c.len(),
            0 <= i <= n,
            w == seq_width(c.subrange(0, i as int)),
            w <= max_width,
            fit_len(c, max_width as int) == i + fit_len(
                c.subrange(i as int, n as int),
                max_width - w,
            ),
        decreases n - i,
    {
        let ch = clean.as_str().get_char(i);
        let cw = measure_char(ch);
        proof {
            assert(c.subrange(i as int, n as int).first() == c[i as int]);
            assert(c.subrange(i as int, n as int).drop_first() =~= c.subrange(i + 1, n as int));
        }
        if cw > max_width - w {
            let dot_width = measure_char('.');
            proof {
                assert(fit_len(c.subrange(i as int, n as int), max_width - w) == 0);
                assert(fit_len(c, max_width as int) == i);
                assert(c =~= c.subrange(0, i as int) + c.subrange(i as int, n as int));
                lemma_seq_width_concat(c.subrange(0, i as int), c.subrange(i as int, n as int));
                assert(seq_width(c.subrange(i as int, n as int)) >= char_width(c[i as int]));
                assert(seq_width(c) > max_width);
                lemma_ellipsis_width();
                reveal_strlit("...");
                assert("..."@ =~= ellipsis());
            }
            let mut out = clean.as_str().substring_char(0, i).to_owned();
            out.append("...");
            proof {
                lemma_seq_width_concat(c.subrange(0, i as int), ellipsis());
            }
            return out;
        }
        proof {
            lemma_seq_width_push(c.subrange(0, i as int), c[i as int]);
            assert(c.subrange(0, i as int).push(c[i as int]) =~= c.subrange(0, i + 1));
        }
        w += cw;
        i += 1;
    }
    let space_width = measure_char(' ');
    proof {
        assert(c.subrange(0, n as int) =~= c);
        reveal_strlit(" ");
        assert(" "@ =~= seq![' ']);
        assert(c + spaces(0) =~= c);
    }
    let pad = max_width - w;
    let mut out = clean;
    let mut j: usize = 0;
    while j < pad
        invariant
            0 <= j <= pad,
            out@ == c + spaces(j as nat),
            char_width(' ') == 1,
            " "@ == seq![' '],
        decreases pad - j,
    {
        out.append(" ");
        proof {
            assert((c + spaces(j as nat)) + seq![' '] =~= c + spaces((j + 1) as nat));
        }
        j += 1;
    }
    proof {
        assert(out@ == c + spaces(pad as nat));
        lemma_spaces_props(pad as nat);
        lemma_seq_width_concat(c, spaces(pad as nat));
    }
    out
}

/// A text padded on the left with spaces to at least `w` characters.
pub open spec fn right_align_spec(t: Seq<char>, w: int) -> Seq<char> {
    if t.len() >= w {
        t
    } else {
        spaces((w - t.len()) as nat) + t
    }
}

/// One report row: the label fitted into the title column, one space, and
/// the elapsed time right-aligned in ten characters.
pub open spec fn row_spec(raw: Seq<char>, total_ms: int) -> Seq<char> {
    fit_spec(clean_label_spec(raw), crate::TITLE_WIDTH as int) + seq![' '] + right_align_spec(
        format_elapsed_spec((total_ms / 1000) as nat),
        10,
    )
}

/// Renders one row of the report: the fitted label, one space, and the
/// credited time as right-aligned `HH:MM:SS`.
pub fn render_row(label: &str, total_ms: u64) -> (r: String)
    ensures
        r@ == row_spec(label@, total_ms as int),
{
    let mut out = fit_width(label, crate::TITLE_WIDTH);
    let time = format_elapsed(total_ms / 1000);
    let tlen = time.as_str().unicode_len();
    proof {
        reveal_strlit(" ");
        assert(" "@ =~= seq![' ']);
    }
    out.append(" ");
    let ghost head = fit_spec(clean_label_spec(label@), crate::TITLE_WIDTH as int) + seq![' '];
    if tlen < 10 {
        let pad = 10 - tlen;
        let mut j: usize = 0;
        proof {
            assert(head + spaces(0) =~= head);
        }
        while j < pad
            invariant
                0 <= j <= pad,
                out@ == head + spaces(j as nat),
                " "@ == seq![' '],
                head == fit_spec(clean_label_spec(label@), crate::TITLE_WIDTH as int) + seq![' '],
            decreases pad - j,
        {
            out.append(" ");
            proof {
                assert((head + spaces(j as nat)) + seq![' '] =~= head + spaces((j + 1) as nat));
            }
            j += 1;
        }
    }
    out.append(time.as_str());
    proof {
        assert(out@ =~= row_spec(label@, total_ms as int));
    }
    out
}

/// Formatting a duration below one hundred hours and parsing the text back
/// as `H * 3600 + M * 60 + S` gives the total seconds again.
pub proof fn lemma_format_elapsed_round_trip(secs: nat)
    requires
        secs < 360000,
    ensures
        format_elapsed_spec(secs).len() == 8,
        parse_hms(format_elapsed_spec(secs)) == secs,
{
    let h = secs / 3600;
    let m = (secs % 3600) / 60;
    let s = secs % 60;
    assert(h < 100 && m < 60 && s < 60) by (nonlinear_arith)
        requires
            secs < 360000,
            h == secs / 3600,
            m == (secs % 3600) / 60,
            s == secs % 60,
    ;
    lemma_padded_digits_small(h);
    lemma_padded_digits_small(m);
    lemma_padded_digits_small(s);
    let t = format_elapsed_spec(secs);
    assert(t[0] == padded_digits(h)[0] && t[1] == padded_digits(h)[1]);
    assert(t[3] == padded_digits(m)[0] && t[4] == padded_digits(m)[1]);
    assert(t[6] == padded_digits(s)[0] && t[7] == padded_digits(s)[1]);
    assert(h * 3600 + m * 60 + s == secs) by (nonlinear_arith)
        requires
            h == secs / 3600,
            m == (secs % 3600) / 60,
            s == secs % 60,
    ;
}

} // verus!
