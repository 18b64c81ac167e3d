//! Laws of the text primitives: what trimming, splitting and the decimal
//! notation are, each by a relation that fixes it.

use crate::text::{
    decimal, decimal_signed, digits_value, i32_of, is_digit, is_space,
    lemma_split_bounds, lemma_split_concat, lemma_stray_character, lemma_trim_end_parts,
    lemma_trim_start_parts, natural, split, trim, trim_end, trim_start, u16_of,
};
use vstd::prelude::*;

verus! {

/// The white space that is trimmed: the characters that Unicode gives the
/// property `White_Space`, tab to carriage return and the space among
/// them, and no others.
pub proof fn law_white_space(c: char)
    ensures
        is_space(c) <==> {
            ||| c == '\u{9}' || c == '\u{a}' || c == '\u{b}' || c == '\u{c}' || c == '\u{d}'
            ||| c == '\u{20}' || c == '\u{85}' || c == '\u{a0}' || c == '\u{1680}'
            ||| c == '\u{2000}' || c == '\u{2001}' || c == '\u{2002}' || c == '\u{2003}'
            ||| c == '\u{2004}' || c == '\u{2005}' || c == '\u{2006}' || c == '\u{2007}'
            ||| c == '\u{2008}' || c == '\u{2009}' || c == '\u{200a}'
            ||| c == '\u{2028}' || c == '\u{2029}' || c == '\u{202f}' || c == '\u{205f}'
            ||| c == '\u{3000}'
        },
{
}

/// Trimming takes away white space at both ends, and all of it: what is
/// left is in the middle of the string, and neither starts nor ends with
/// white space.
pub proof fn law_trim_takes_the_ends(s: Seq<char>) -> (ends: (Seq<char>, Seq<char>))
    ensures
        forall|i: int| 0 <= i < ends.0.len() ==> is_space(#[trigger] ends.0[i]),
        forall|i: int| 0 <= i < ends.1.len() ==> is_space(#[trigger] ends.1[i]),
        s == ends.0 + trim(s) + ends.1,
        trim(s).len() > 0 ==> !is_space(trim(s)[0]) && !is_space(trim(s).last()),
{
    let front = lemma_trim_start_parts(s);
    let back = lemma_trim_end_parts(trim_start(s));
    assert(s =~= front + trim(s) + back);
    lemma_trim_start_bare(s);
    lemma_trim_end_bare(trim_start(s));
    if trim(s).len() > 0 {
        assert(trim(s)[0] == trim_start(s)[0]) by {
            assert(trim_start(s) == trim(s) + back);
        }
    }
    (front, back)
}

/// No white space is left in front.
proof fn lemma_trim_start_bare(s: Seq<char>)
    ensures
        trim_start(s).len() > 0 ==> !is_space(trim_start(s)[0]),
    decreases s.len(),
{
    if s.len() > 0 && is_space(s[0]) {
        lemma_trim_start_bare(s.skip(1));
    }
}

/// No white space is left behind.
proof fn lemma_trim_end_bare(s: Seq<char>)
    ensures
        trim_end(s).len() > 0 ==> !is_space(trim_end(s).last()),
    decreases s.len(),
{
    if s.len() > 0 && is_space(s.last()) {
        lemma_trim_end_bare(s.drop_last());
    }
}

/// Strings with a separator between each two.
pub open spec fn joined(parts: Seq<Seq<char>>, sep: char) -> Seq<char>
    decreases parts.len(),
{
    if parts.len() == 0 {
        Seq::empty()
    } else if parts.len() == 1 {
        parts[0]
    } else {
        joined(parts.drop_last(), sep).push(sep) + parts.last()
    }
}

/// None of the strings holds the separator.
pub open spec fn free_of(parts: Seq<Seq<char>>, sep: char) -> bool {
    forall|i: int| 0 <= i < parts.len() ==> !(#[trigger] parts[i]).contains(sep)
}

/// A string without a separator is one piece.
proof fn lemma_split_plain(s: Seq<char>, sep: char)
    requires
        !s.contains(sep),
    ensures
        split(s, sep) == seq![s],
    decreases s.len(),
{
    if s.len() == 0 {
        assert(s =~= Seq::<char>::empty());
    } else {
        let front = s.drop_last();
        assert(!front.contains(sep)) by {
            if front.contains(sep) {
                let i = choose|i: int| 0 <= i < front.len() && front[i] == sep;
                assert(s[i] == sep);
            }
        }
        lemma_split_plain(front, sep);
        assert(s[s.len() - 1] != sep);
        assert(front.push(s.last()) =~= s);
        assert(split(front, sep).drop_last().push(front.push(s.last())) =~= seq![s]);
    }
}

/// Joining and splitting undo each other: a joined list of strings without
/// the separator splits into that list.
pub proof fn law_split_undoes_join(parts: Seq<Seq<char>>, sep: char)
    requires
        parts.len() >= 1,
        free_of(parts, sep),
    ensures
        split(joined(parts, sep), sep) == parts,
    decreases parts.len(),
{
    if parts.len() == 1 {
        lemma_split_plain(parts[0], sep);
        assert(seq![parts[0]] =~= parts);
    } else {
        let front = parts.drop_last();
        assert forall|i: int| 0 <= i < front.len() implies !(#[trigger] front[i]).contains(
            sep,
        ) by {
            assert(front[i] == parts[i]);
        }
        law_split_undoes_join(front, sep);
        assert(parts.last() == parts[parts.len() - 1]);
        lemma_split_plain(parts.last(), sep);
        lemma_split_concat(joined(front, sep), parts.last(), sep);
        assert(front + seq![parts.last()] =~= parts);
    }
}

/// One more character behind the last of joined strings.
proof fn lemma_joined_grows(parts: Seq<Seq<char>>, c: char, sep: char)
    requires
        parts.len() >= 1,
    ensures
        joined(parts.drop_last().push(parts.last().push(c)), sep) == joined(parts, sep).push(c),
{
    let longer = parts.drop_last().push(parts.last().push(c));
    assert(longer.drop_last() =~= parts.drop_last());
    if parts.len() > 1 {
        let front = joined(parts.drop_last(), sep).push(sep);
        assert(front + parts.last().push(c) =~= (front + parts.last()).push(c));
    }
}

/// The pieces of a string are what lies between its separators: joined
/// again they are the string, and none holds a separator.
pub proof fn law_join_undoes_split(s: Seq<char>, sep: char)
    ensures
        split(s, sep).len() >= 1,
        joined(split(s, sep), sep) == s,
        free_of(split(s, sep), sep),
    decreases s.len(),
{
    lemma_split_bounds(s, sep);
    if s.len() == 0 {
        assert(s =~= Seq::<char>::empty());
    } else {
        let front = s.drop_last();
        let c = s.last();
        law_join_undoes_split(front, sep);
        let fs = split(front, sep);
        assert(front.push(c) =~= s);
        if c == sep {
            let none = Seq::<char>::empty();
            assert(fs.push(none).drop_last() =~= fs);
            assert(joined(fs, sep).push(sep) + none =~= s);
            assert forall|i: int| 0 <= i < fs.push(none).len() implies !(
            #[trigger] fs.push(none)[i]).contains(sep) by {
                if i < fs.len() {
                    assert(fs.push(none)[i] == fs[i]);
                }
            }
        } else {
            lemma_joined_grows(fs, c, sep);
            let gs = fs.drop_last().push(fs.last().push(c));
            assert forall|i: int| 0 <= i < gs.len() implies !(#[trigger] gs[i]).contains(sep) by {
                if i < fs.len() - 1 {
                    assert(gs[i] == fs[i]);
                } else {
                    assert(gs[i] == fs.last().push(c));
                    assert(!fs[fs.len() - 1].contains(sep));
                    if gs[i].contains(sep) {
                        let j = choose|j: int| 0 <= j < gs[i].len() && gs[i][j] == sep;
                        assert(fs.last()[j] == sep);
                    }
                }
            }
        }
    }
}

/// The natural number that digits write: a single digit is its value, one
/// more digit behind multiplies by ten and adds its value; nothing, or a
/// character that is no digit, writes no number.
pub proof fn law_digits_write_numbers(s: Seq<char>, c: char)
    ensures
        natural(Seq::<char>::empty()) is None,
        '0' <= c <= '9' ==> natural(seq![c]) == Some((c as int - '0' as int) as nat),
        '0' <= c <= '9' ==> (natural(s) matches Some(v) ==> natural(s.push(c)) == Some(
            (10 * v + (c as int - '0' as int)) as nat,
        )),
        !('0' <= c <= '9') && s.contains(c) ==> natural(s) is None,
        natural(s) is Some ==> s.len() > 0 && forall|i: int|
            0 <= i < s.len() ==> '0' <= #[trigger] s[i] <= '9',
{
    assert(seq![c].drop_last() =~= Seq::<char>::empty());
    reveal_with_fuel(digits_value, 2);
    assert(s.push(c).drop_last() =~= s);
    if natural(s) is Some {
        assert forall|i: int| 0 <= i < s.len() implies '0' <= #[trigger] s[i] <= '9' by {
            if !is_digit(s[i]) {
                lemma_stray_character(s, i);
            }
        }
    }
    if !('0' <= c <= '9') && s.contains(c) {
        let i = choose|i: int| 0 <= i < s.len() && s[i] == c;
        lemma_stray_character(s, i);
    }
}

/// A string of digits writes a number.
pub proof fn law_every_digit_string_is_a_number(s: Seq<char>)
    requires
        s.len() > 0,
        forall|i: int| 0 <= i < s.len() ==> '0' <= #[trigger] s[i] <= '9',
    ensures
        natural(s) is Some,
    decreases s.len(),
{
    let front = s.drop_last();
    assert('0' <= s[s.len() - 1] <= '9');
    if front.len() > 0 {
        assert forall|i: int| 0 <= i < front.len() implies '0' <= #[trigger] front[i] <= '9' by {
            assert(front[i] == s[i]);
        }
        law_every_digit_string_is_a_number(front);
    } else {
        assert(front =~= Seq::<char>::empty());
    }
}

/// The tokens that write 16-bit and 32-bit numbers: digits, after a plus
/// sign or none, or for the signed ones a minus sign, whose number is in
/// range.
pub proof fn law_number_tokens(s: Seq<char>)
    ensures
        ({
            let plus = s.len() > 0 && s[0] == '+';
            let minus = s.len() > 0 && s[0] == '-';
            let bare = if plus {
                s.skip(1)
            } else {
                s
            };
            let unsigned = if plus || minus {
                s.skip(1)
            } else {
                s
            };
            &&& u16_of(s) is Some <==> natural(bare) is Some && natural(bare)->0 <= 65535
            &&& u16_of(s) matches Some(v) ==> v == natural(bare)->0
            &&& i32_of(s) is Some <==> natural(unsigned) is Some && (if minus {
                natural(unsigned)->0 <= 2147483648
            } else {
                natural(unsigned)->0 <= 2147483647
            })
            &&& i32_of(s) matches Some(v) ==> v == (if minus {
                -(natural(unsigned)->0 as int)
            } else {
                natural(unsigned)->0 as int
            })
        }),
{
}

/// Decimal notation: digits that write the number, without a leading zero
/// but for zero itself; a negative number has a minus sign in front.
pub proof fn law_decimal_notation(n: nat, m: int)
    ensures
        natural(decimal(n)) == Some(n),
        decimal(n)[0] == '0' ==> n == 0,
        n == 0 ==> decimal(n) == seq!['0'],
        m >= 0 ==> decimal_signed(m) == decimal(m as nat),
        m < 0 ==> decimal_signed(m) == seq!['-'] + decimal((-m) as nat),
{
    lemma_decimal(n);
    assert(decimal(0) =~= seq!['0']);
}

/// The digits of a number write it, and the first is not zero.
proof fn lemma_decimal(n: nat)
    ensures
        decimal(n).len() > 0,
        digits_value(decimal(n)) == Some(n),
        decimal(n)[0] == '0' ==> n == 0,
    decreases n,
{
    if n < 10 {
        let c = decimal(n)[0];
        assert(decimal(n).drop_last() =~= Seq::<char>::empty());
        reveal_with_fuel(digits_value, 2);
        assert(decimal(n).last() == c);
    } else {
        lemma_decimal(n / 10);
        let front = decimal(n / 10);
        assert(decimal(n).drop_last() =~= front);
        assert(decimal(n)[0] == front[0]);
    }
}

} // verus!
