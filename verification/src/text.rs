//! Text primitives of the IR format: whitespace, splitting, numbers and
//! messages, over sequences of characters.

use vstd::prelude::*;
use vstd::slice::slice_subrange;
use vstd::string::StringExecFns;

verus! {

/// Unicode white space.
pub open spec fn is_space(c: char) -> bool {
    let u = c as u32;
    ||| 0x09 <= u <= 0x0d
    ||| u == 0x20
    ||| u == 0x85
    ||| u == 0xa0
    ||| u == 0x1680
    ||| 0x2000 <= u <= 0x200a
    ||| u == 0x2028
    ||| u == 0x2029
    ||| u == 0x202f
    ||| u == 0x205f
    ||| u == 0x3000
}

/// `s` without leading white space.
pub open spec fn trim_start(s: Seq<char>) -> Seq<char>
    decreases s.len(),
{
    if s.len() > 0 && is_space(s[0]) {
        trim_start(s.skip(1))
    } else {
        s
    }
}

/// `s` without trailing white space.
pub open spec fn trim_end(s: Seq<char>) -> Seq<char>
    decreases s.len(),
{
    if s.len() > 0 && is_space(s.last()) {
        trim_end(s.drop_last())
    } else {
        s
    }
}

/// `s` without leading and trailing white space.
pub open spec fn trim(s: Seq<char>) -> Seq<char> {
    trim_end(trim_start(s))
}

/// The pieces of `s` between the separators; one more than there are
/// separators.
pub open spec fn split(s: Seq<char>, sep: char) -> Seq<Seq<char>>
    decreases s.len(),
{
    if s.len() == 0 {
        seq![Seq::<char>::empty()]
    } else {
        let front = split(s.drop_last(), sep);
        if s.last() == sep {
            front.push(Seq::<char>::empty())
        } else {
            front.drop_last().push(front.last().push(s.last()))
        }
    }
}

/// Decimal digit.
pub open spec fn is_digit(c: char) -> bool {
    '0' <= c <= '9'
}

/// The number that a string of decimal digits denotes; `None` when a
/// character is no digit.
pub open spec fn digits_value(s: Seq<char>) -> Option<nat>
    decreases s.len(),
{
    if s.len() == 0 {
        Some(0)
    } else {
        match digits_value(s.drop_last()) {
            Some(v) => if is_digit(s.last()) {
                Some((v * 10 + (s.last() as u32 - '0' as u32)) as nat)
            } else {
                None
            },
            None => None,
        }
    }
}

/// The natural number that `s` writes: one or more digits.
pub open spec fn natural(s: Seq<char>) -> Option<nat> {
    if s.len() == 0 {
        None
    } else {
        digits_value(s)
    }
}

/// `s` is led by the character `c`.
pub open spec fn led_by(s: Seq<char>, c: char) -> bool {
    s.len() > 0 && s[0] == c
}

/// The 16-bit unsigned number that `s` writes: digits, optionally after
/// a plus sign.
pub open spec fn u16_of(s: Seq<char>) -> Option<u16> {
    match natural(
        if led_by(s, '+') {
            s.skip(1)
        } else {
            s
        },
    ) {
        Some(v) => if v <= u16::MAX {
            Some(v as u16)
        } else {
            None
        },
        None => None,
    }
}

/// The 32-bit signed number that `s` writes: digits, optionally after a
/// sign.
pub open spec fn i32_of(s: Seq<char>) -> Option<i32> {
    let magnitude = natural(
        if led_by(s, '+') || led_by(s, '-') {
            s.skip(1)
        } else {
            s
        },
    );
    match magnitude {
        Some(v) => {
            let n = if led_by(s, '-') {
                -(v as int)
            } else {
                v as int
            };
            if i32::MIN <= n <= i32::MAX {
                Some(n as i32)
            } else {
                None
            }
        },
        None => None,
    }
}

/// The digit character of `d < 10`.
pub open spec fn digit_char(d: nat) -> char {
    (('0' as u32) + d) as char
}

/// Decimal notation of a natural number.
pub open spec fn decimal(n: nat) -> Seq<char>
    decreases n,
{
    if n < 10 {
        seq![digit_char(n)]
    } else {
        decimal(n / 10).push(digit_char(n % 10))
    }
}

/// Decimal notation of an integer.
pub open spec fn decimal_signed(n: int) -> Seq<char> {
    if n < 0 {
        seq!['-'] + decimal((-n) as nat)
    } else {
        decimal(n as nat)
    }
}

/// A piece is no longer than the whole, and there are no more pieces
/// than characters plus one.
pub proof fn lemma_split_bounds(s: Seq<char>, sep: char)
    ensures
        0 < split(s, sep).len() <= s.len() + 1,
        forall|i: int|
            0 <= i < split(s, sep).len() ==> (#[trigger] split(s, sep)[i]).len() <= s.len(),
    decreases s.len(),
{
    if s.len() > 0 {
        lemma_split_bounds(s.drop_last(), sep);
    }
}

/// Every character of `s` is white space.
pub open spec fn all_space(s: Seq<char>) -> bool {
    forall|i: int| 0 <= i < s.len() ==> is_space(#[trigger] s[i])
}

/// Two sequences of strings that are equal up to white space at the ends
/// of each.
pub open spec fn same_trimmed(x: Seq<Seq<char>>, y: Seq<Seq<char>>) -> bool {
    &&& x.len() == y.len()
    &&& forall|i: int| 0 <= i < x.len() ==> trim(#[trigger] x[i]) == trim(y[i])
}

/// White space in front of a string is trimmed away.
pub proof fn lemma_trim_space_front(c: char, s: Seq<char>)
    requires
        is_space(c),
    ensures
        trim(seq![c] + s) == trim(s),
{
    assert((seq![c] + s).skip(1) =~= s);
}

/// Trimming the front commutes with appending white space, unless
/// nothing is left.
proof fn lemma_trim_start_push(s: Seq<char>, c: char)
    requires
        is_space(c),
    ensures
        trim_start(s.push(c)) == (if trim_start(s).len() == 0 {
            Seq::<char>::empty()
        } else {
            trim_start(s).push(c)
        }),
    decreases s.len(),
{
    if s.len() == 0 {
        assert(s.push(c).skip(1) =~= Seq::<char>::empty());
        assert(trim_start(s) =~= s);
        assert(trim_start(s.push(c)) == trim_start(Seq::<char>::empty()));
    } else if is_space(s[0]) {
        assert(s.push(c).skip(1) =~= s.skip(1).push(c));
        lemma_trim_start_push(s.skip(1), c);
    }
}

/// White space behind a string is trimmed away.
pub proof fn lemma_trim_space_back(s: Seq<char>, c: char)
    requires
        is_space(c),
    ensures
        trim(s.push(c)) == trim(s),
{
    lemma_trim_start_push(s, c);
    let t = trim_start(s);
    if t.len() > 0 {
        assert(t.push(c).drop_last() =~= t);
    } else {
        assert(t =~= Seq::<char>::empty());
    }
}

/// A string of white space is trimmed to nothing.
pub proof fn lemma_trim_all_space(s: Seq<char>)
    requires
        all_space(s),
    ensures
        trim(s).len() == 0,
    decreases s.len(),
{
    if s.len() > 0 {
        assert(is_space(s[0]));
        assert forall|i: int| 0 <= i < s.skip(1).len() implies is_space(
            #[trigger] s.skip(1)[i],
        ) by {
            assert(s.skip(1)[i] == s[i + 1]);
        }
        lemma_trim_all_space(s.skip(1));
        assert(seq![s[0]] + s.skip(1) =~= s);
        lemma_trim_space_front(s[0], s.skip(1));
    }
}

/// The pieces of two strings with a separator between them are the pieces
/// of the one, then those of the other.
pub proof fn lemma_split_concat(x: Seq<char>, y: Seq<char>, sep: char)
    ensures
        split(x.push(sep) + y, sep) == split(x, sep) + split(y, sep),
    decreases y.len(),
{
    lemma_split_bounds(y, sep);
    if y.len() == 0 {
        assert(x.push(sep) + y =~= x.push(sep));
        assert(x.push(sep).drop_last() =~= x);
        assert(split(x, sep).push(Seq::<char>::empty()) =~= split(x, sep) + split(y, sep));
    } else {
        let front = y.drop_last();
        lemma_split_concat(x, front, sep);
        lemma_split_bounds(front, sep);
        assert((x.push(sep) + y).drop_last() =~= x.push(sep) + front);
        let xs = split(x, sep);
        let fs = split(front, sep);
        if y.last() == sep {
            assert((xs + fs).push(Seq::<char>::empty()) =~= xs + fs.push(Seq::<char>::empty()));
        } else {
            let longer = fs.last().push(y.last());
            assert((xs + fs).last() == fs.last());
            assert((xs + fs).drop_last().push(longer) =~= xs + fs.drop_last().push(longer));
        }
    }
}

/// A character behind a string that is no separator lengthens its last
/// piece.
proof fn lemma_split_push(s: Seq<char>, c: char, sep: char)
    requires
        c != sep,
    ensures
        split(s.push(c), sep) == split(s, sep).drop_last().push(split(s, sep).last().push(c)),
{
    assert(s.push(c).drop_last() =~= s);
}

/// A character in front of a string that is no separator lengthens its
/// first piece.
proof fn lemma_split_front(c: char, s: Seq<char>, sep: char)
    requires
        c != sep,
    ensures
        split(seq![c] + s, sep) == split(s, sep).update(0, seq![c] + split(s, sep)[0]),
    decreases s.len(),
{
    lemma_split_bounds(s, sep);
    if s.len() == 0 {
        assert(seq![c] + s =~= Seq::<char>::empty().push(c));
        lemma_split_push(Seq::<char>::empty(), c, sep);
        assert(s =~= Seq::<char>::empty());
        assert(split(s, sep) =~= seq![Seq::<char>::empty()]);
        assert(split(s, sep).drop_last().push(Seq::<char>::empty().push(c)) =~= split(
            s,
            sep,
        ).update(0, seq![c] + split(s, sep)[0])) by {
            assert(Seq::<char>::empty().push(c) =~= seq![c] + Seq::<char>::empty());
        }
    } else {
        let front = s.drop_last();
        lemma_split_front(c, front, sep);
        lemma_split_bounds(front, sep);
        assert((seq![c] + s).drop_last() =~= seq![c] + front);
        assert((seq![c] + s).last() == s.last());
        let fs = split(front, sep);
        let gs = fs.update(0, seq![c] + fs[0]);
        if s.last() == sep {
            let none = Seq::<char>::empty();
            assert(gs.push(none) =~= fs.push(none).update(0, seq![c] + fs[0]));
        } else {
            let d = s.last();
            if fs.len() == 1 {
                assert((seq![c] + fs[0]).push(d) =~= seq![c] + fs[0].push(d));
            }
            assert(gs.drop_last().push(gs.last().push(d)) =~= fs.drop_last().push(
                fs.last().push(d),
            ).update(0, seq![c] + fs.drop_last().push(fs.last().push(d))[0]));
        }
    }
}

/// White space behind a string changes its pieces only at their ends.
pub proof fn lemma_split_space_back(s: Seq<char>, w: Seq<char>, sep: char)
    requires
        all_space(w),
        !w.contains(sep),
    ensures
        same_trimmed(split(s + w, sep), split(s, sep)),
    decreases w.len(),
{
    if w.len() == 0 {
        assert(s + w =~= s);
    } else {
        let v = w.drop_last();
        let c = w.last();
        assert(w[w.len() - 1] == c);
        assert forall|i: int| 0 <= i < v.len() implies is_space(#[trigger] v[i]) by {
            assert(v[i] == w[i]);
        }
        assert(!v.contains(sep)) by {
            if v.contains(sep) {
                let i = choose|i: int| 0 <= i < v.len() && v[i] == sep;
                assert(w[i] == sep);
            }
        }
        assert(c != sep);
        lemma_split_space_back(s, v, sep);
        assert(s + w =~= (s + v).push(c));
        lemma_split_push(s + v, c, sep);
        lemma_split_bounds(s + v, sep);
        let ps = split(s + v, sep);
        lemma_trim_space_back(ps.last(), c);
        let qs = split(s + w, sep);
        assert forall|i: int| 0 <= i < qs.len() implies trim(#[trigger] qs[i]) == trim(
            split(s, sep)[i],
        ) by {
            assert(trim(ps[i]) == trim(split(s, sep)[i]));
        }
    }
}

/// White space in front of a string changes its pieces only at their
/// ends.
pub proof fn lemma_split_space_front(w: Seq<char>, s: Seq<char>, sep: char)
    requires
        all_space(w),
        !w.contains(sep),
    ensures
        same_trimmed(split(w + s, sep), split(s, sep)),
    decreases w.len(),
{
    if w.len() == 0 {
        assert(w + s =~= s);
    } else {
        let v = w.skip(1);
        let c = w[0];
        assert(is_space(c));
        assert forall|i: int| 0 <= i < v.len() implies is_space(#[trigger] v[i]) by {
            assert(v[i] == w[i + 1]);
        }
        assert(!v.contains(sep)) by {
            if v.contains(sep) {
                let i = choose|i: int| 0 <= i < v.len() && v[i] == sep;
                assert(w[i + 1] == sep);
            }
        }
        assert(c != sep);
        lemma_split_space_front(v, s, sep);
        assert(w + s =~= seq![c] + (v + s));
        lemma_split_front(c, v + s, sep);
        lemma_split_bounds(v + s, sep);
        let ps = split(v + s, sep);
        lemma_trim_space_front(c, ps[0]);
        let qs = split(w + s, sep);
        assert forall|i: int| 0 <= i < qs.len() implies trim(#[trigger] qs[i]) == trim(
            split(s, sep)[i],
        ) by {
            assert(trim(ps[i]) == trim(split(s, sep)[i]));
        }
    }
}

/// What trimming the front takes away is white space.
pub proof fn lemma_trim_start_parts(s: Seq<char>) -> (w: Seq<char>)
    ensures
        all_space(w),
        s == w + trim_start(s),
    decreases s.len(),
{
    if s.len() > 0 && is_space(s[0]) {
        let v = lemma_trim_start_parts(s.skip(1));
        let w = seq![s[0]] + v;
        assert(s =~= seq![s[0]] + s.skip(1));
        assert(w + trim_start(s) =~= seq![s[0]] + (v + trim_start(s.skip(1))));
        w
    } else {
        assert(Seq::<char>::empty() + s =~= s);
        Seq::empty()
    }
}

/// What trimming the back takes away is white space.
pub proof fn lemma_trim_end_parts(s: Seq<char>) -> (w: Seq<char>)
    ensures
        all_space(w),
        s == trim_end(s) + w,
    decreases s.len(),
{
    if s.len() > 0 && is_space(s.last()) {
        let v = lemma_trim_end_parts(s.drop_last());
        let w = v.push(s.last());
        assert(s =~= s.drop_last().push(s.last()));
        assert(trim_end(s) + w =~= (trim_end(s.drop_last()) + v).push(s.last()));
        w
    } else {
        assert(s + Seq::<char>::empty() =~= s);
        Seq::empty()
    }
}

/// Trimming a string changes its pieces only at their ends, for a
/// separator that is no white space.
pub proof fn lemma_split_trimmed(s: Seq<char>, sep: char)
    requires
        !is_space(sep),
    ensures
        same_trimmed(split(s, sep), split(trim(s), sep)),
{
    let v = lemma_trim_start_parts(s);
    let t = trim_start(s);
    let w = lemma_trim_end_parts(t);
    assert(!v.contains(sep) && !w.contains(sep));
    lemma_split_space_front(v, t, sep);
    lemma_split_space_back(trim(s), w, sep);
    let ps = split(s, sep);
    let qs = split(t, sep);
    let rs = split(trim(s), sep);
    assert forall|i: int| 0 <= i < ps.len() implies trim(#[trigger] ps[i]) == trim(rs[i]) by {
        assert(trim(ps[i]) == trim(qs[i]));
        assert(trim(qs[i]) == trim(rs[i]));
    }
}

/// Whether `c` is Unicode white space.
pub fn is_space_char(c: char) -> (b: bool)
    ensures
        b == is_space(c),
{
    let u: u32 = c as u32;
    (0x09 <= u && u <= 0x0d) || u == 0x20 || u == 0x85 || u == 0xa0 || u == 0x1680 || (0x2000 <= u
        && u <= 0x200a) || u == 0x2028 || u == 0x2029 || u == 0x202f || u == 0x205f || u == 0x3000
}

/// The part of `s` without leading and trailing white space.
pub fn trimmed<'a>(s: &'a [char]) -> (t: &'a [char])
    ensures
        t@ == trim(s@),
        t@.len() <= s@.len(),
{
    let n: usize = s.len();
    let mut i: usize = 0;
    assert(s@.skip(0) =~= s@);
    while i < n && is_space_char(s[i])
        invariant
            n == s@.len(),
            i <= n,
            trim_start(s@) == trim_start(s@.skip(i as int)),
        decreases n - i,
    {
        assert(s@.skip(i as int).skip(1) =~= s@.skip(i + 1));
        i = i + 1;
    }
    let ghost rest = s@.skip(i as int);
    assert(trim_start(s@) == rest);
    let mut j: usize = n;
    assert(rest.take(rest.len() as int) =~= rest);
    while j > i && is_space_char(s[j - 1])
        invariant
            n == s@.len(),
            i <= j <= n,
            rest == s@.skip(i as int),
            trim_end(rest) == trim_end(rest.take(j - i)),
        decreases j,
    {
        assert(rest.take(j - i).drop_last() =~= rest.take(j - i - 1));
        j = j - 1;
    }
    assert(s@.subrange(i as int, j as int) =~= rest.take(j - i));
    slice_subrange(s, i, j)
}

/// The pieces of `s` between the separators.
pub fn split_on<'a>(s: &'a [char], sep: char) -> (parts: Vec<&'a [char]>)
    ensures
        parts@.len() == split(s@, sep).len(),
        forall|i: int| 0 <= i < parts@.len() ==> (#[trigger] parts@[i])@ == split(s@, sep)[i],
{
    let n: usize = s.len();
    let mut parts: Vec<&'a [char]> = Vec::new();
    let mut start: usize = 0;
    for i in 0..n
        invariant
            n == s@.len(),
            start <= i,
            parts@.len() + 1 == split(s@.take(i as int), sep).len(),
            forall|k: int|
                0 <= k < parts@.len() ==> (#[trigger] parts@[k])@ == split(
                    s@.take(i as int),
                    sep,
                )[k],
            s@.subrange(start as int, i as int) == split(s@.take(i as int), sep).last(),
    {
        assert(s@.take(i + 1).drop_last() =~= s@.take(i as int));
        if s[i] == sep {
            parts.push(slice_subrange(s, start, i));
            start = i + 1;
            assert(s@.subrange(start as int, i + 1) =~= Seq::<char>::empty());
        } else {
            assert(s@.subrange(start as int, i + 1) =~= s@.subrange(start as int, i as int).push(
                s@[i as int],
            ));
        }
    }
    assert(s@.take(n as int) =~= s@);
    parts.push(slice_subrange(s, start, n));
    parts
}

/// The characters of `text`.
pub fn chars_of(text: &str) -> (v: Vec<char>)
    ensures
        v@ == text@,
{
    let mut v: Vec<char> = Vec::new();
    for c in it: text.chars()
        invariant
            v@ == text@.take(it.index()),
            it.seq() == text@,
    {
        v.push(c);
        assert(text@.take(it.index() + 1) =~= text@.take(it.index()).push(c));
    }
    assert(text@.take(text@.len() as int) =~= text@);
    v
}

/// Whether the characters of `s` are those of `word`.
pub fn is_word(s: &[char], word: &str) -> (b: bool)
    ensures
        b == (s@ == word@),
{
    let n: usize = s.len();
    let mut i: usize = 0;
    for c in it: word.chars()
        invariant
            n == s@.len(),
            i == it.index(),
            i <= n,
            it.seq() == word@,
            s@.take(i as int) == word@.take(i as int),
    {
        if i >= n || s[i] != c {
            assert(s@ != word@);
            return false;
        }
        assert(s@.take(i + 1) =~= s@.take(i as int).push(c));
        assert(word@.take(i + 1) =~= word@.take(i as int).push(c));
        i = i + 1;
    }
    assert(word@.take(word@.len() as int) =~= word@);
    assert(i == n ==> s@.take(n as int) =~= s@);
    i == n
}

/// The natural number that `s` writes, capped at `0x1_0000_0000`.
fn natural_capped(s: &[char]) -> (r: Option<u64>)
    ensures
        match natural(s@) {
            Some(v) => r == Some(
                if v <= 0x1_0000_0000 {
                    v as u64
                } else {
                    0x1_0000_0000u64
                },
            ),
            None => r is None,
        },
{
    let n: usize = s.len();
    if n == 0 {
        return None;
    }
    let mut value: u64 = 0;
    for i in 0..n
        invariant
            n == s@.len(),
            value <= 0x1_0000_0000,
            digits_value(s@.take(i as int)) matches Some(v) && value == (if v <= 0x1_0000_0000 {
                v
            } else {
                0x1_0000_0000nat
            }),
    {
        assert(s@.take(i + 1).drop_last() =~= s@.take(i as int));
        let c: char = s[i];
        if !('0' <= c && c <= '9') {
            proof {
                lemma_stray_character(s@, i as int);
            }
            return None;
        }
        let d: u64 = (c as u32 - '0' as u32) as u64;
        value = value * 10 + d;
        if value > 0x1_0000_0000 {
            value = 0x1_0000_0000;
        }
    }
    assert(s@.take(n as int) =~= s@);
    Some(value)
}

/// A string with a character that is no digit is no number.
pub proof fn lemma_stray_character(s: Seq<char>, i: int)
    requires
        0 <= i < s.len(),
        !is_digit(s[i]),
    ensures
        digits_value(s) is None,
    decreases s.len(),
{
    if i < s.len() - 1 {
        lemma_stray_character(s.drop_last(), i);
    }
}

/// The 16-bit unsigned number that `s` writes.
pub fn parse_u16(s: &[char]) -> (r: Option<u16>)
    ensures
        r == u16_of(s@),
{
    let n: usize = s.len();
    let digits: &[char] = if n > 0 && s[0] == '+' {
        slice_subrange(s, 1, n)
    } else {
        s
    };
    assert(n > 0 ==> s@.subrange(1, n as int) =~= s@.skip(1));
    match natural_capped(digits) {
        Some(v) => if v <= 65535 {
            Some(v as u16)
        } else {
            None
        },
        None => None,
    }
}

/// The 32-bit signed number that `s` writes.
pub fn parse_i32(s: &[char]) -> (r: Option<i32>)
    ensures
        r == i32_of(s@),
{
    let n: usize = s.len();
    let negative: bool = n > 0 && s[0] == '-';
    let digits: &[char] = if n > 0 && (s[0] == '+' || s[0] == '-') {
        slice_subrange(s, 1, n)
    } else {
        s
    };
    assert(n > 0 ==> s@.subrange(1, n as int) =~= s@.skip(1));
    match natural_capped(digits) {
        Some(v) => {
            let signed: i64 = if negative {
                -(v as i64)
            } else {
                v as i64
            };
            if -0x8000_0000 <= signed && signed <= 0x7fff_ffff {
                Some(signed as i32)
            } else {
                None
            }
        },
        None => None,
    }
}

/// `String::push`: the character is appended, and nothing else changes.
pub assume_specification[ String::push ](s: &mut String, ch: char)
    ensures
        final(s)@ == old(s)@.push(ch),
;

/// The digit character of `d`.
fn digit(d: u64) -> (c: char)
    requires
        d < 10,
    ensures
        c == digit_char(d as nat),
{
    if d == 0 {
        '0'
    } else if d == 1 {
        '1'
    } else if d == 2 {
        '2'
    } else if d == 3 {
        '3'
    } else if d == 4 {
        '4'
    } else if d == 5 {
        '5'
    } else if d == 6 {
        '6'
    } else if d == 7 {
        '7'
    } else if d == 8 {
        '8'
    } else {
        '9'
    }
}

/// Append the decimal notation of `n`.
pub fn append_decimal(out: &mut String, n: u64)
    ensures
        final(out)@ == old(out)@ + decimal(n as nat),
    decreases n,
{
    if n >= 10 {
        append_decimal(out, n / 10);
    }
    out.push(digit(n % 10));
    assert(out@ =~= old(out)@ + decimal(n as nat));
}

/// Append the decimal notation of the signed number `n`.
pub fn append_signed(out: &mut String, n: i64)
    ensures
        final(out)@ == old(out)@ + decimal_signed(n as int),
{
    if n < 0 {
        out.push('-');
        append_decimal(out, (-(n as i128)) as u64);
        assert(out@ =~= old(out)@ + decimal_signed(n as int));
    } else {
        append_decimal(out, n as u64);
    }
}

/// The text that the debug format `{:?}` gives a string: quoted, with
/// quotes, backslashes and unprintable characters escaped.
pub uninterp spec fn debug_text(s: Seq<char>) -> Seq<char>;

/// `str`'s `Debug` formatting, reached through `format!`: the result is
/// the debug text of the characters of `s`, and depends on nothing else.
#[verifier::external_body]
fn quoted(s: &str) -> (r: String)
    ensures
        r@ == debug_text(s@),
{
    format!("{s:?}")
}

/// The string of the given characters.
fn string_of(s: &[char]) -> (r: String)
    ensures
        r@ == s@,
{
    let n: usize = s.len();
    let mut r: String = String::new();
    assert(r@ =~= s@.take(0));
    for i in 0..n
        invariant
            n == s@.len(),
            r@ == s@.take(i as int),
    {
        r.push(s[i]);
        assert(s@.take(i + 1) =~= s@.take(i as int).push(s@[i as int]));
    }
    assert(s@.take(n as int) =~= s@);
    r
}

/// Append the debug text of `s`.
pub fn append_quoted(out: &mut String, s: &[char])
    ensures
        final(out)@ == old(out)@ + debug_text(s@),
{
    let text: String = string_of(s);
    let q: String = quoted(text.as_str());
    out.append(q.as_str());
}

} // verus!
