//! How texts are taken apart: what each part holds, and that the parts make up the
//! whole again.

use crate::text::{
    after_prefix, all_digits, before_last, before_suffix, cut_first, decimal, digits_value,
    has_part, has_prefix, head_len, is_digit, joined, last_at, lemma_head_len, lemma_head_len_is,
    lines_of, number, number32, number_upto, pieces, trimmed, trimmed_end, trimmed_start, white,
    words_by, Sep,
};
use vstd::prelude::*;

verus! {

// ---------------------------------------------------------------------- numbers

proof fn lemma_decimal(n: nat)
    ensures
        decimal(n).len() > 0,
        all_digits(decimal(n)),
        digits_value(decimal(n)) == n,
    decreases n,
{
    let d = decimal(n);
    if n < 10 {
        assert(d.drop_last() =~= Seq::empty());
        assert(digits_value(d.drop_last()) == 0);
        assert(d.last() as nat == '0' as nat + n);
    } else {
        lemma_decimal(n / 10);
        assert(d.drop_last() =~= decimal(n / 10));
        assert(d.last() as nat == '0' as nat + n % 10);
        assert forall|i: int| 0 <= i < d.len() implies is_digit(#[trigger] d[i]) by {
            if i < d.len() - 1 {
                assert(d[i] == decimal(n / 10)[i]);
            }
        }
        assert(digits_value(d) == digits_value(d.drop_last()) * 10 + n % 10);
    }
}

/// A number that was written is read back, where it fits.
pub proof fn law_a_written_number_is_read(n: nat, max: nat)
    ensures
        number_upto(decimal(n), max) == if n <= max {
            Some(n)
        } else {
            None
        },
{
    lemma_decimal(n);
    assert(is_digit(decimal(n)[0]));
}

/// The same for the two widths of numbers in use.
pub proof fn law_written_numbers_are_read(n: u64, m: u32)
    ensures
        number(decimal(n as nat)) == Some(n),
        number32(decimal(m as nat)) == Some(m),
{
    law_a_written_number_is_read(n as nat, u64::MAX as nat);
    law_a_written_number_is_read(m as nat, u32::MAX as nat);
}

/// A text with anything but digits behind an optional plus sign is no number.
pub proof fn law_only_digits_are_a_number(s: Seq<char>, i: int)
    requires
        0 <= i < s.len(),
        !is_digit(s[i]),
        i > 0 || s[0] != '+' || s.len() == 1,
    ensures
        number(s) is None,
        number32(s) is None,
{
    if s[0] == '+' {
        if i > 0 {
            assert(s.skip(1)[i - 1] == s[i]);
        }
    }
}

// ----------------------------------------------------------------------- blanks

/// All characters of a text are white space.
pub open spec fn is_blank(s: Seq<char>) -> bool {
    forall|i: int| 0 <= i < s.len() ==> white(#[trigger] s[i])
}

proof fn lemma_start(s: Seq<char>) -> (a: int)
    ensures
        0 <= a <= s.len(),
        is_blank(s.take(a)),
        trimmed_start(s) == s.skip(a),
        trimmed_start(s).len() > 0 ==> !white(trimmed_start(s)[0]),
    decreases s.len(),
{
    if s.len() > 0 && white(s[0]) {
        let a = lemma_start(s.skip(1));
        assert(s.skip(1).skip(a) =~= s.skip(a + 1));
        assert forall|i: int| 0 <= i < s.take(a + 1).len() implies white(
            #[trigger] s.take(a + 1)[i],
        ) by {
            if i > 0 {
                assert(s.skip(1).take(a)[i - 1] == s[i]);
            }
        }
        a + 1
    } else {
        assert(s.skip(0) =~= s);
        0
    }
}

proof fn lemma_end(s: Seq<char>) -> (b: int)
    ensures
        0 <= b <= s.len(),
        is_blank(s.skip(b)),
        trimmed_end(s) == s.take(b),
        trimmed_end(s).len() > 0 ==> !white(trimmed_end(s).last()),
    decreases s.len(),
{
    if s.len() > 0 && white(s.last()) {
        let b = lemma_end(s.drop_last());
        assert(s.drop_last().take(b) =~= s.take(b));
        assert forall|i: int| 0 <= i < s.skip(b).len() implies white(#[trigger] s.skip(b)[i]) by {
            if i + b < s.len() - 1 {
                assert(s.drop_last().skip(b)[i] == s[i + b]);
            }
        }
        b
    } else {
        assert(s.take(s.len() as int) =~= s);
        s.len() as int
    }
}

/// A text that neither starts nor ends with white space comes out of any amount of
/// white space around it.
pub proof fn law_trimming_takes_the_blanks_off(before: Seq<char>, s: Seq<char>, after: Seq<char>)
    requires
        is_blank(before),
        is_blank(after),
        s.len() > 0 ==> !white(s[0]) && !white(s.last()),
    ensures
        trimmed(before + s + after) == s,
{
    let all = before + s + after;
    let a = lemma_start(all);
    let t = trimmed_start(all);
    let b = lemma_end(t);
    if s.len() == 0 {
        assert(is_blank(all)) by {
            assert forall|i: int| 0 <= i < all.len() implies white(#[trigger] all[i]) by {
                if i < before.len() {
                    assert(all[i] == before[i]);
                } else {
                    assert(all[i] == after[i - before.len()]);
                }
            }
        }
        if t.len() > 0 {
            assert(t[0] == all[a]);
        }
        assert(trimmed(all) =~= s);
    } else {
        let n = before.len();
        assert(all[n as int] == s[0]);
        if a < n {
            assert(t[0] == before[a]);
        }
        if a > n {
            assert(all.take(a)[n as int] == s[0]);
        }
        assert(t =~= s + after);
        if b > s.len() {
            assert(trimmed_end(t).last() == after[b - 1 - s.len()]);
        }
        if b < s.len() {
            assert(t.skip(b)[s.len() - 1 - b] == s.last());
        }
        assert(trimmed(all) =~= s);
    }
}

/// Trimming leaves neither end white, and what it takes off is white.
pub proof fn law_a_trimmed_text_is_the_middle(s: Seq<char>)
    ensures
        trimmed(s).len() > 0 ==> !white(trimmed(s)[0]) && !white(trimmed(s).last()),
        exists|a: int, b: int|
            0 <= a <= b <= s.len() && trimmed(s) == #[trigger] s.subrange(a, b) && is_blank(
                s.take(a),
            ) && is_blank(s.skip(b)),
{
    let a = lemma_start(s);
    let t = trimmed_start(s);
    let b = lemma_end(t);
    assert(trimmed(s) =~= s.subrange(a, a + b));
    assert forall|i: int| 0 <= i < s.skip(a + b).len() implies white(
        #[trigger] s.skip(a + b)[i],
    ) by {
        assert(t.skip(b)[i] == s.skip(a + b)[i]);
    }
}

// ------------------------------------------------------------------------ parts

/// No character of a text separates.
pub open spec fn is_whole(s: Seq<char>, sep: Sep) -> bool {
    forall|i: int| 0 <= i < s.len() ==> !sep.hits(#[trigger] s[i])
}

/// Words stand between separators: those of two texts with a separator between them
/// are the words of both, a text without one is a word, and an empty one has none.
pub proof fn law_words_stand_between_separators(a: Seq<char>, c: char, b: Seq<char>, sep: Sep)
    requires
        sep.hits(c),
    ensures
        words_by(a.push(c) + b, sep) == words_by(a, sep) + words_by(b, sep),
        a.len() > 0 && is_whole(a, sep) ==> words_by(a, sep) == seq![a],
        a.len() == 0 ==> words_by(a, sep).len() == 0,
    decreases a.len(),
{
    let all = a.push(c) + b;
    lemma_head_len(a, sep);
    lemma_head_len(all, sep);
    let n = head_len(a, sep);
    if is_whole(a, sep) {
        if n < a.len() {
            assert(sep.hits(a[n as int]));
        }
    }
    if a.len() == 0 {
        assert(all[0] == c);
        lemma_head_len_is(all, sep, 0);
        assert(all.skip(1) =~= b);
        assert(words_by(a, sep) + words_by(b, sep) =~= words_by(b, sep));
    } else {
        assert(all[n as int] == a.push(c)[n as int]);
        assert forall|i: int| 0 <= i < n implies !sep.hits(#[trigger] all[i]) by {
            assert(all[i] == a[i]);
        }
        lemma_head_len_is(all, sep, n);
        if n == 0 {
            law_words_stand_between_separators(a.skip(1), c, b, sep);
            assert(all.skip(1) =~= a.skip(1).push(c) + b);
        } else if n >= a.len() {
            assert(all.take(n as int) =~= a);
            assert(all.skip(n as int) =~= seq![c] + b);
            let rest = seq![c] + b;
            assert(rest[0] == c);
            lemma_head_len_is(rest, sep, 0);
            assert(rest.skip(1) =~= b);
            assert(words_by(rest, sep) == words_by(b, sep));
            assert(words_by(all, sep) == seq![all.take(n as int)] + words_by(
                all.skip(n as int),
                sep,
            ));
            assert(words_by(a, sep) == seq![a]);
        } else {
            law_words_stand_between_separators(a.skip(n as int), c, b, sep);
            assert(all.take(n as int) =~= a.take(n as int));
            assert(all.skip(n as int) =~= a.skip(n as int).push(c) + b);
            assert(words_by(all, sep) =~= words_by(a, sep) + words_by(b, sep));
        }
    }
}

proof fn lemma_joined_front(first: Seq<char>, rest: Seq<Seq<char>>, sep: Seq<char>)
    requires
        rest.len() > 0,
    ensures
        joined(seq![first] + rest, sep) == first + sep + joined(rest, sep),
    decreases rest.len(),
{
    let all = seq![first] + rest;
    if rest.len() == 1 {
        assert(all.drop_last() =~= seq![first]);
        assert(joined(seq![first], sep) == first);
        assert(all.last() == rest[0]);
    } else {
        lemma_joined_front(first, rest.drop_last(), sep);
        assert(all.drop_last() =~= seq![first] + rest.drop_last());
        assert(all.last() == rest.last());
        assert(joined(all, sep) =~= first + sep + joined(rest, sep));
    }
}

/// A text cut at every separator is its pieces again with the separator between
/// them, and no piece holds one.
pub proof fn law_pieces_make_up_the_text(s: Seq<char>, c: char, k: int)
    ensures
        pieces(s, Sep::Is(c)).len() > 0,
        joined(pieces(s, Sep::Is(c)), seq![c]) == s,
        0 <= k < pieces(s, Sep::Is(c)).len() ==> is_whole(pieces(s, Sep::Is(c))[k], Sep::Is(c)),
    decreases s.len(),
{
    let sep = Sep::Is(c);
    let n = head_len(s, sep);
    lemma_head_len(s, sep);
    if n < s.len() {
        let rest = s.skip(n as int + 1);
        law_pieces_make_up_the_text(rest, c, k - 1);
        lemma_joined_front(s.take(n as int), pieces(rest, sep), seq![c]);
        assert(s[n as int] == c);
        assert(s.take(n as int) + seq![c] + rest =~= s);
    }
}

/// A text cut at a character is what stands before it, the character and what
/// stands behind it; it does not stand before the cut.
pub proof fn law_a_cut_is_at_the_first(s: Seq<char>, c: char)
    ensures
        cut_first(s, c) is None <==> is_whole(s, Sep::Is(c)),
        cut_first(s, c) matches Some((head, tail)) ==> is_whole(head, Sep::Is(c)) && s == head.push(
            c,
        ) + tail,
{
    let sep = Sep::Is(c);
    let n = head_len(s, sep);
    lemma_head_len(s, sep);
    if n < s.len() {
        assert(sep.hits(s[n as int]));
        assert(s.take(n as int).push(c) + s.skip(n as int + 1) =~= s);
    }
}

/// What stands behind a text at the start of another, or before one at its end, is the
/// rest; a text stands in any text around it.
pub proof fn law_ends_are_taken_off(a: Seq<char>, p: Seq<char>, b: Seq<char>)
    ensures
        after_prefix(p + b, p) == Some(b),
        before_suffix(a + p, p) == Some(a),
        has_part(a + p + b, p),
{
    assert((p + b).take(p.len() as int) =~= p);
    assert((p + b).skip(p.len() as int) =~= b);
    assert((a + p).skip(a.len() as int) =~= p);
    assert((a + p).take(a.len() as int) =~= a);
    let all = a + p + b;
    let t = all.skip(a.len() as int);
    assert(t.take(p.len() as int) =~= p);
    assert(has_prefix(t, p));
}

/// A text that starts otherwise has no such start, and one that ends otherwise no such
/// end.
pub proof fn law_other_ends_are_not_taken_off(s: Seq<char>, p: Seq<char>, i: int)
    requires
        0 <= i < p.len() <= s.len(),
    ensures
        s[i] != p[i] ==> after_prefix(s, p) is None,
        s[s.len() - p.len() + i] != p[i] ==> before_suffix(s, p) is None,
{
    if has_prefix(s, p) {
        assert(s.take(p.len() as int)[i] == s[i]);
    }
    let t = s.skip(s.len() - p.len());
    assert(t[i] == s[s.len() - p.len() + i]);
}

/// What stands before the last of a character: the rest behind it holds none.
pub proof fn law_a_text_is_cut_at_the_last(a: Seq<char>, c: char, b: Seq<char>)
    requires
        is_whole(b, Sep::Is(c)),
    ensures
        before_last(a.push(c) + b, c) == a,
        before_last(b, c) == b,
{
    let all = a.push(c) + b;
    assert(all[a.len() as int] == c);
    assert forall|i: int| a.len() < i < all.len() implies #[trigger] all[i] != c by {
        assert(!Sep::Is(c).hits(b[i - a.len() - 1]));
    }
    lemma_last_at(all, c, a.len() as int);
    assert(all.take(a.len() as int) =~= a);
    assert forall|i: int| -1 < i < b.len() implies #[trigger] b[i] != c by {
        assert(!Sep::Is(c).hits(b[i]));
    }
    lemma_last_at(b, c, -1);
}

proof fn lemma_last_at(s: Seq<char>, c: char, n: int)
    requires
        -1 <= n <= s.len(),
        n >= 0 ==> n < s.len() && s[n] == c,
        forall|i: int| n < i < s.len() ==> #[trigger] s[i] != c,
    ensures
        last_at(s, c) == n,
    decreases s.len(),
{
    if s.len() > 0 && n < s.len() - 1 {
        assert(s[s.len() - 1] != c);
        let t = s.drop_last();
        assert forall|i: int| n < i < t.len() implies #[trigger] t[i] != c by {
            assert(t[i] == s[i]);
        }
        lemma_last_at(t, c, n);
    }
}

/// A text is its lines: the first ends at the first line feed, without a carriage
/// return before it, and the rest are those of the rest.
pub proof fn law_lines_end_at_line_feeds(a: Seq<char>, b: Seq<char>)
    requires
        is_whole(a, Sep::Is('\n')),
    ensures
        a.len() > 0 && a.last() == '\r' ==> lines_of(a.push('\n') + b) == seq![a.drop_last()]
            + lines_of(b),
        a.len() == 0 || a.last() != '\r' ==> lines_of(a.push('\n') + b) == seq![a] + lines_of(b),
        a.len() > 0 ==> lines_of(a) == seq![a],
        lines_of(Seq::empty()).len() == 0,
{
    let sep = Sep::Is('\n');
    let all = a.push('\n') + b;
    assert(all[a.len() as int] == '\n');
    assert forall|i: int| 0 <= i < a.len() implies !sep.hits(#[trigger] all[i]) by {
        assert(all[i] == a[i]);
    }
    lemma_head_len_is(all, sep, a.len());
    assert(all.take(a.len() as int) =~= a);
    assert(all.skip(a.len() as int + 1) =~= b);
    lemma_head_len_is(a, sep, a.len());
}

} // verus!
