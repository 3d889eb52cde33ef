//! Characters, words, lines and numbers: the text operations that the rest of
//! the library is written with.

use vstd::prelude::*;
#[allow(unused_imports)]
use vstd::utf8::{decode_utf8, valid_utf8};

verus! {

broadcast use vstd::string::group_string_axioms;

/// `String::push` puts one character at the end of the string.
pub assume_specification[ String::push ](s: &mut String, c: char)
    ensures
        final(s)@ == old(s)@.push(c),
;

/// The text that `String::from_utf8_lossy` reads from bytes.
pub uninterp spec fn utf8_lossy(bytes: Seq<u8>) -> Seq<char>;

/// `String::from_utf8_lossy`: the text that the bytes encode. What is not valid
/// UTF-8 in them becomes a replacement character; bytes that are valid give the
/// text that they encode.
#[verifier::external_body]
pub(crate) fn text_from_bytes(bytes: &Vec<u8>) -> (r: String)
    ensures
        r@ == utf8_lossy(bytes@),
        valid_utf8(bytes@) ==> r@ == decode_utf8(bytes@),
{
    String::from_utf8_lossy(bytes).into_owned()
}

/// The characters of each string of a sequence.
pub open spec fn texts(strings: Seq<String>) -> Seq<Seq<char>> {
    strings.map_values(|s: String| s@)
}

/// The characters of `s`, one by one.
pub fn chars_of(s: &str) -> (r: Vec<char>)
    ensures
        r@ == s@,
{
    let mut r: Vec<char> = Vec::new();
    for c in it: s.chars()
        invariant
            r@ == it.seq().take(it.index() as int),
            it.seq() == s@,
    {
        r.push(c);
        assert(r@ =~= it.seq().take(it.index() as int + 1));
    }
    assert(s@.take(s@.len() as int) =~= s@);
    r
}

/// The characters from `from` up to, not including, `to` as a string.
pub fn text_between(chars: &Vec<char>, from: usize, to: usize) -> (r: String)
    requires
        from <= to <= chars.len(),
    ensures
        r@ == chars@.subrange(from as int, to as int),
{
    let mut r = String::new();
    let mut i: usize = from;
    while i < to
        invariant
            from <= i <= to <= chars.len(),
            r@ == chars@.subrange(from as int, i as int),
        decreases to - i,
    {
        r.push(chars[i]);
        i += 1;
        assert(r@ =~= chars@.subrange(from as int, i as int));
    }
    r
}

/// Whether two texts hold the same characters.
pub fn same_text(a: &str, b: &str) -> (r: bool)
    ensures
        r == (a@ == b@),
{
    a.to_owned() == b.to_owned()
}

/// `n` spaces.
pub open spec fn blank(n: nat) -> Seq<char> {
    Seq::new(n, |i: int| ' ')
}

/// Appends `n` spaces.
pub fn push_spaces(s: &mut String, n: usize)
    ensures
        final(s)@ == old(s)@ + blank(n as nat),
{
    let ghost start = s@;
    let mut i: usize = 0;
    assert(s@ =~= start + blank(0));
    while i < n
        invariant
            i <= n,
            s@ == start + blank(i as nat),
        decreases n - i,
    {
        s.push(' ');
        i += 1;
        assert(s@ =~= start + blank(i as nat));
    }
}

/// `s` followed by as many spaces as it takes to fill `width` characters; a
/// text that is longer than that stays as it is.
pub open spec fn padded(s: Seq<char>, width: nat) -> Seq<char> {
    if s.len() < width {
        s + blank((width - s.len()) as nat)
    } else {
        s
    }
}

/// Fills `s` up to `width` characters with spaces on its right.
pub fn pad_right(s: &str, width: usize) -> (r: String)
    ensures
        r@ == padded(s@, width as nat),
{
    let len: usize = s.unicode_len();
    let mut r = s.to_owned();
    if len < width {
        push_spaces(&mut r, width - len);
    }
    r
}

/// The decimal digit `d`, for `d` below ten.
pub open spec fn digit(d: nat) -> char {
    (48 + d) as char
}

/// The decimal notation of `n`, without leading zeros.
pub open spec fn decimal(n: nat) -> Seq<char>
    decreases n,
{
    if n < 10 {
        seq![digit(n)]
    } else {
        decimal(n / 10).push(digit(n % 10))
    }
}

/// Writes `n` in decimal notation.
pub fn decimal_text(n: u64) -> (r: String)
    ensures
        r@ == decimal(n as nat),
    decreases n,
{
    let d: u64 = n % 10;
    let c: char = (48u8 + d as u8) as char;
    assert(c == digit(d as nat));
    if n < 10 {
        let mut r = String::new();
        r.push(c);
        assert(r@ =~= seq![c]);
        r
    } else {
        let mut r = decimal_text(n / 10);
        r.push(c);
        r
    }
}

/// The characters with the Unicode property White_Space.
pub open spec fn whitespace(c: char) -> bool {
    ||| '\u{9}' <= c <= '\u{d}'
    ||| c == ' '
    ||| c == '\u{85}'
    ||| c == '\u{a0}'
    ||| c == '\u{1680}'
    ||| '\u{2000}' <= c <= '\u{200a}'
    ||| c == '\u{2028}'
    ||| c == '\u{2029}'
    ||| c == '\u{202f}'
    ||| c == '\u{205f}'
    ||| c == '\u{3000}'
}

/// Whether `c` separates words.
pub fn is_whitespace(c: char) -> (r: bool)
    ensures
        r == whitespace(c),
{
    ('\u{9}' <= c && c <= '\u{d}') || c == ' ' || c == '\u{85}' || c == '\u{a0}' || c == '\u{1680}'
        || ('\u{2000}' <= c && c <= '\u{200a}') || c == '\u{2028}' || c == '\u{2029}'
        || c == '\u{202f}' || c == '\u{205f}' || c == '\u{3000}'
}

/// How many characters of `s` come before its first `c`; all of them where `s`
/// holds no `c`.
pub open spec fn before(s: Seq<char>, c: char) -> nat
    decreases s.len(),
{
    if s.len() == 0 || s[0] == c {
        0
    } else {
        1 + before(s.drop_first(), c)
    }
}

/// `before` is the one position up to which no `c` occurs and at which one does.
pub proof fn lemma_before(s: Seq<char>, c: char, n: nat)
    requires
        n <= s.len(),
        forall|i: int| 0 <= i < n ==> s[i] != c,
        n < s.len() ==> s[n as int] == c,
    ensures
        before(s, c) == n,
    decreases n,
{
    if n > 0 {
        assert forall|i: int| 0 <= i < n - 1 implies s.drop_first()[i] != c by {
            assert(s.drop_first()[i] == s[i + 1]);
        }
        lemma_before(s.drop_first(), c, (n - 1) as nat);
    }
}

/// A line without the carriage return that may stand before its line feed.
pub open spec fn without_return(line: Seq<char>) -> Seq<char> {
    if line.len() > 0 && line.last() == '\r' {
        line.drop_last()
    } else {
        line
    }
}

/// The lines of `s`: what stands before each line feed, a carriage return right
/// before it left out, and what follows the last line feed, if anything does.
pub open spec fn lines(s: Seq<char>) -> Seq<Seq<char>>
    decreases s.len(),
{
    let n = before(s, '\n') as int;
    if s.len() == 0 {
        seq![]
    } else if n < s.len() {
        seq![without_return(s.take(n))] + lines(s.skip(n + 1))
    } else {
        seq![s]
    }
}

/// Splits a text into its lines.
pub fn lines_of(text: &str) -> (r: Vec<String>)
    ensures
        texts(r@) == lines(text@),
{
    let cs = chars_of(text);
    let mut r: Vec<String> = Vec::new();
    let mut pos: usize = 0;
    proof {
        assert(cs@.skip(0) =~= cs@);
        assert(texts(r@) + lines(cs@) =~= lines(cs@));
    }
    while pos < cs.len()
        invariant
            pos <= cs.len(),
            texts(r@) + lines(cs@.skip(pos as int)) == lines(cs@),
        decreases cs.len() - pos,
    {
        let ghost rest = cs@.skip(pos as int);
        let mut end: usize = pos;
        while end < cs.len() && cs[end] != '\n'
            invariant
                pos <= end <= cs.len(),
                forall|i: int| pos <= i < end ==> cs@[i] != '\n',
            decreases cs.len() - end,
        {
            end += 1;
        }
        proof {
            assert forall|i: int| 0 <= i < end - pos implies rest[i] != '\n' by {
                assert(rest[i] == cs@[pos + i]);
            }
            lemma_before(rest, '\n', (end - pos) as nat);
        }
        let ghost seen = texts(r@);
        if end < cs.len() {
            let stop: usize = if end > pos && cs[end - 1] == '\r' { end - 1 } else { end };
            let line = text_between(&cs, pos, stop);
            proof {
                assert(rest.take(end - pos) =~= cs@.subrange(pos as int, end as int));
                assert(line@ =~= without_return(rest.take(end - pos)));
                assert(rest.skip(end - pos + 1) =~= cs@.skip(end + 1));
            }
            r.push(line);
            assert(texts(r@) =~= seen.push(line@));
            pos = end + 1;
            assert(texts(r@) + lines(cs@.skip(pos as int)) =~= seen + lines(rest));
        } else {
            let line = text_between(&cs, pos, end);
            assert(line@ =~= rest);
            r.push(line);
            assert(texts(r@) =~= seen.push(line@));
            pos = end;
            assert(cs@.skip(pos as int) =~= Seq::<char>::empty());
            assert(texts(r@) + lines(cs@.skip(pos as int)) =~= seen + lines(rest));
        }
    }
    assert(cs@.skip(pos as int) =~= Seq::<char>::empty());
    assert(texts(r@) + lines(cs@.skip(pos as int)) =~= texts(r@));
    r
}

/// How many characters `s` starts with before white space or its end comes.
pub open spec fn word_len(s: Seq<char>) -> nat
    decreases s.len(),
{
    if s.len() == 0 || whitespace(s[0]) {
        0
    } else {
        1 + word_len(s.drop_first())
    }
}

/// The first word of `s` lies within `s`.
pub proof fn lemma_word_len_bound(s: Seq<char>)
    ensures
        word_len(s) <= s.len(),
    decreases s.len(),
{
    if s.len() > 0 {
        lemma_word_len_bound(s.drop_first());
    }
}

/// `word_len` is the one position up to which no white space occurs and at
/// which the text ends or white space stands.
pub proof fn lemma_word_len(s: Seq<char>, n: nat)
    requires
        n <= s.len(),
        forall|i: int| 0 <= i < n ==> !whitespace(s[i]),
        n < s.len() ==> whitespace(s[n as int]),
    ensures
        word_len(s) == n,
    decreases n,
{
    if n > 0 {
        assert forall|i: int| 0 <= i < n - 1 implies !whitespace(s.drop_first()[i]) by {
            assert(s.drop_first()[i] == s[i + 1]);
        }
        lemma_word_len(s.drop_first(), (n - 1) as nat);
    }
}

/// The words of `s`: its longest runs of characters that are not white space,
/// in order.
pub open spec fn words(s: Seq<char>) -> Seq<Seq<char>>
    decreases s.len(),
{
    if s.len() == 0 {
        seq![]
    } else if whitespace(s[0]) {
        words(s.drop_first())
    } else {
        proof {
            lemma_word_len_bound(s);
        }
        seq![s.take(word_len(s) as int)] + words(s.skip(word_len(s) as int))
    }
}

/// Splits a text into its words.
pub fn words_of(text: &str) -> (r: Vec<String>)
    ensures
        texts(r@) == words(text@),
{
    let cs = chars_of(text);
    let mut r: Vec<String> = Vec::new();
    let mut pos: usize = 0;
    proof {
        assert(cs@.skip(0) =~= cs@);
        assert(texts(r@) + words(cs@) =~= words(cs@));
    }
    while pos < cs.len()
        invariant
            pos <= cs.len(),
            texts(r@) + words(cs@.skip(pos as int)) == words(cs@),
        decreases cs.len() - pos,
    {
        let ghost rest = cs@.skip(pos as int);
        if is_whitespace(cs[pos]) {
            pos += 1;
            assert(rest.drop_first() =~= cs@.skip(pos as int));
        } else {
            let mut end: usize = pos + 1;
            while end < cs.len() && !is_whitespace(cs[end])
                invariant
                    pos < end <= cs.len(),
                    forall|i: int| pos <= i < end ==> !whitespace(cs@[i]),
                decreases cs.len() - end,
            {
                end += 1;
            }
            let word = text_between(&cs, pos, end);
            let ghost seen = texts(r@);
            proof {
                assert forall|i: int| 0 <= i < end - pos implies !whitespace(rest[i]) by {
                    assert(rest[i] == cs@[pos + i]);
                }
                lemma_word_len(rest, (end - pos) as nat);
                assert(word@ =~= rest.take(end - pos));
                assert(rest.skip(end - pos) =~= cs@.skip(end as int));
            }
            r.push(word);
            assert(texts(r@) =~= seen.push(word@));
            pos = end;
            assert(texts(r@) + words(cs@.skip(pos as int)) =~= seen + words(rest));
        }
    }
    assert(cs@.skip(pos as int) =~= Seq::<char>::empty());
    assert(texts(r@) + words(cs@.skip(pos as int)) =~= texts(r@));
    r
}

/// Law: a blank of `n` characters holds `n` spaces.
pub proof fn lemma_blank(n: nat)
    ensures
        blank(n).len() == n,
        forall|i: int| 0 <= i < n ==> #[trigger] blank(n)[i] == ' ',
{
}

/// Law: a padded text begins with the text, goes on with spaces, and is as wide as
/// asked for, or as the text where that is wider.
pub proof fn lemma_padded(s: Seq<char>, width: nat)
    ensures
        s.is_prefix_of(padded(s, width)),
        padded(s, width).len() == if s.len() < width { width } else { s.len() },
        forall|i: int|
            s.len() <= i < padded(s, width).len() ==> #[trigger] padded(s, width)[i] == ' ',
{
    assert(padded(s, width).take(s.len() as int) =~= s);
}

/// The number that decimal digits stand for.
pub open spec fn read_decimal(s: Seq<char>) -> int
    decreases s.len(),
{
    if s.len() == 0 {
        0
    } else {
        10 * read_decimal(s.drop_last()) + (s.last() as int - '0' as int)
    }
}

/// Law: the decimal notation of a number is made of digits, has no leading zero, and
/// stands for that number.
pub proof fn lemma_decimal_reads_back(n: nat)
    ensures
        decimal(n).len() > 0,
        forall|i: int| 0 <= i < decimal(n).len() ==> '0' <= #[trigger] decimal(n)[i] <= '9',
        decimal(n)[0] == '0' ==> decimal(n).len() == 1,
        read_decimal(decimal(n)) == n,
    decreases n,
{
    let s = decimal(n);
    if n < 10 {
        assert(s.drop_last() =~= seq![]);
        assert(read_decimal(s.drop_last()) == 0);
    } else {
        lemma_decimal_reads_back(n / 10);
        assert(s.drop_last() =~= decimal(n / 10));
        assert(decimal(n / 10).len() == 1 ==> decimal(n / 10) == seq![digit(n / 10)]) by {
            if n / 10 >= 10 {
                lemma_decimal_reads_back(n / 10 / 10);
            }
        }
        assert forall|i: int| 0 <= i < s.len() implies '0' <= #[trigger] s[i] <= '9' by {
            if i < s.len() - 1 {
                assert(s[i] == decimal(n / 10)[i]);
            }
        }
        assert(s[0] == decimal(n / 10)[0]);
        if s[0] == '0' {
            assert(decimal(n / 10)[0] == digit(n / 10));
            assert(read_decimal(decimal(n / 10).drop_last()) == 0) by {
                assert(decimal(n / 10).drop_last() =~= seq![]);
            }
        }
    }
}

/// Law: a text without a line feed is a single line, unless it is empty. A line feed
/// ends a line, without a carriage return that stands right before it, and what
/// follows has its lines as if it stood alone.
pub proof fn lemma_lines_join(line: Seq<char>, rest: Seq<char>)
    requires
        !line.contains('\n'),
    ensures
        lines(line) == if line.len() == 0 { Seq::<Seq<char>>::empty() } else { seq![line] },
        lines(line.push('\n') + rest) == seq![
            if line.len() > 0 && line.last() == '\r' { line.drop_last() } else { line },
        ] + lines(rest),
{
    assert forall|i: int| 0 <= i < line.len() implies line[i] != '\n' by {
        assert(line.contains(line[i]));
    }
    lemma_before(line, '\n', line.len());
    let s = line.push('\n') + rest;
    lemma_before(s, '\n', line.len());
    assert(s.take(line.len() as int) =~= line);
    assert(s.skip(line.len() as int + 1) =~= rest);
}

/// Law: a text without white space is a single word, unless it is empty, and white
/// space parts words: those before it and those behind it are the words of all.
pub proof fn lemma_words_join(a: Seq<char>, c: char, b: Seq<char>)
    requires
        whitespace(c),
    ensures
        words(a.push(c) + b) == words(a) + words(b),
        (forall|i: int| 0 <= i < a.len() ==> !whitespace(#[trigger] a[i])) ==> words(a) == if a.len()
            == 0 {
            Seq::<Seq<char>>::empty()
        } else {
            seq![a]
        },
    decreases a.len(),
{
    let s = a.push(c) + b;
    if a.len() == 0 {
        assert(s[0] == c);
        assert(s.drop_first() =~= b);
        assert(words(a) + words(b) =~= words(b));
    } else if whitespace(a[0]) {
        assert(s[0] == a[0]);
        assert(s.drop_first() =~= a.drop_first().push(c) + b);
        lemma_words_join(a.drop_first(), c, b);
    } else {
        let n = word_len(a);
        lemma_word_len_bound(a);
        lemma_word_ends(a);
        assert(s[0] == a[0]);
        assert forall|i: int| 0 <= i < n implies !whitespace(s[i]) by {
            assert(s[i] == a[i]);
        }
        assert(n < s.len() ==> whitespace(s[n as int])) by {
            if n < a.len() {
                assert(s[n as int] == a[n as int]);
            } else {
                assert(s[n as int] == c);
            }
        }
        lemma_word_len(s, n);
        assert(s.take(n as int) =~= a.take(n as int));
        let more = a.skip(n as int);
        assert(s.skip(n as int) =~= more.push(c) + b);
        lemma_words_join(more, c, b);
        assert(words(s) =~= seq![a.take(n as int)] + (words(more) + words(b)));
        assert(words(a) + words(b) =~= seq![a.take(n as int)] + (words(more) + words(b)));
        if forall|i: int| 0 <= i < a.len() ==> !whitespace(#[trigger] a[i]) {
            lemma_word_len(a, a.len());
            assert(a.take(n as int) =~= a);
            assert(more =~= seq![]);
            assert(words(more) =~= seq![]);
            assert(words(a) =~= seq![a]);
        }
    }
}

/// A word ends where the text does or white space stands.
proof fn lemma_word_ends(s: Seq<char>)
    ensures
        forall|i: int| 0 <= i < word_len(s) ==> !whitespace(#[trigger] s[i]),
        word_len(s) < s.len() ==> whitespace(s[word_len(s) as int]),
    decreases s.len(),
{
    if s.len() > 0 && !whitespace(s[0]) {
        let rest = s.drop_first();
        lemma_word_len_bound(s);
        lemma_word_ends(rest);
        assert forall|i: int| 0 <= i < word_len(s) implies !whitespace(#[trigger] s[i]) by {
            if i > 0 {
                assert(s[i] == rest[i - 1]);
            }
        }
        if word_len(s) < s.len() {
            assert(s[word_len(s) as int] == rest[word_len(rest) as int]);
        }
    }
}

/// Law: there are twenty-five characters of white space.
pub proof fn lemma_whitespace(c: char)
    ensures
        whitespace(c) <==> seq![
            0x9int,
            0xa,
            0xb,
            0xc,
            0xd,
            0x20,
            0x85,
            0xa0,
            0x1680,
            0x2000,
            0x2001,
            0x2002,
            0x2003,
            0x2004,
            0x2005,
            0x2006,
            0x2007,
            0x2008,
            0x2009,
            0x200a,
            0x2028,
            0x2029,
            0x202f,
            0x205f,
            0x3000,
        ].contains(c as int),
{
    let all = seq![
        0x9int,
        0xa,
        0xb,
        0xc,
        0xd,
        0x20,
        0x85,
        0xa0,
        0x1680,
        0x2000,
        0x2001,
        0x2002,
        0x2003,
        0x2004,
        0x2005,
        0x2006,
        0x2007,
        0x2008,
        0x2009,
        0x200a,
        0x2028,
        0x2029,
        0x202f,
        0x205f,
        0x3000,
    ];
    let n = c as int;
    assert(all.len() == 25);
    if 0x9 <= n <= 0xd {
        assert(all[n - 9] == n);
    } else if n == 0x20 {
        assert(all[5] == n);
    } else if n == 0x85 {
        assert(all[6] == n);
    } else if n == 0xa0 {
        assert(all[7] == n);
    } else if n == 0x1680 {
        assert(all[8] == n);
    } else if 0x2000 <= n <= 0x200a {
        assert(all[n - 0x2000 + 9] == n);
    } else if n == 0x2028 {
        assert(all[20] == n);
    } else if n == 0x2029 {
        assert(all[21] == n);
    } else if n == 0x202f {
        assert(all[22] == n);
    } else if n == 0x205f {
        assert(all[23] == n);
    } else if n == 0x3000 {
        assert(all[24] == n);
    }
}

}
