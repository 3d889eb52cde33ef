//! Source code as tokens, and a run of tokens that stops syn where it stands for a
//! type.

use proc_macro2::{Delimiter, Spacing, TokenStream, TokenTree};
use vstd::prelude::*;

use crate::text::{chars_of, same_text, text_between};

verus! {

broadcast use vstd::string::group_string_axioms;

/// What stands round a group of tokens.
#[derive(Debug, Clone, Copy, PartialEq, Eq, Structural)]
pub enum Bracket {
    Round,
    Square,
    Curly,
    /// Nothing that is written.
    Hidden,
}

/// A token.
#[derive(Debug)]
pub enum Token {
    /// An identifier or a keyword.
    Word(String),
    /// A punctuation character, and whether it is joined with what follows.
    Sign(char, bool),
    /// A literal, as it is written.
    Literal(String),
    /// Tokens between brackets.
    Group(Bracket, Vec<Token>),
}

/// The value of a [`Token`].
pub enum TokenView {
    Word(Seq<char>),
    Sign(char, bool),
    Literal(Seq<char>),
    Group(Bracket, Seq<TokenView>),
}

impl Token {
    /// The value of the token.
    pub open spec fn value(self) -> TokenView
        decreases self,
    {
        match self {
            Token::Word(w) => TokenView::Word(w@),
            Token::Sign(c, joint) => TokenView::Sign(c, joint),
            Token::Literal(l) => TokenView::Literal(l@),
            Token::Group(b, inner) => TokenView::Group(b, token_values(inner@)),
        }
    }
}

/// The values of tokens.
pub open spec fn token_values(s: Seq<Token>) -> Seq<TokenView>
    decreases s,
{
    if s.len() == 0 {
        seq![]
    } else {
        token_values(s.drop_last()).push(s.last().value())
    }
}

/// The values of tokens, one for each.
proof fn lemma_token_values(s: Seq<Token>)
    ensures
        token_values(s).len() == s.len(),
        forall|i: int| 0 <= i < s.len() ==> token_values(s)[i] == (#[trigger] s[i]).value(),
    decreases s.len(),
{
    if s.len() > 0 {
        lemma_token_values(s.drop_last());
        assert forall|i: int| 0 <= i < s.len() implies token_values(s)[i] == (
        #[trigger] s[i]).value() by {
            if i < s.len() - 1 {
                assert(s.drop_last()[i] == s[i]);
            }
        }
    }
}

/// Tokens as proc-macro2 holds them.
#[verifier::external_type_specification]
#[verifier::external_body]
pub struct ExTokenStream(TokenStream);

/// What a `proc_macro2::TokenStream` holds.
pub uninterp spec fn stream_contents(s: TokenStream) -> Seq<TokenView>;

/// The tokens that `proc_macro2::TokenStream::from_str` reads from a text, where
/// the text is made of tokens.
pub uninterp spec fn lexed(text: Seq<char>) -> Option<Seq<TokenView>>;

/// `proc_macro2::TokenStream::from_str`: the tokens of a text, or none where it is
/// not made of tokens. The result is a function of the text alone.
#[verifier::external_body]
fn lex(text: &str) -> (r: Option<TokenStream>)
    ensures
        (match r {
            Some(s) => Some(stream_contents(s)),
            None => None,
        }) == lexed(text@),
{
    text.parse::<TokenStream>().ok()
}

/// Takes a `proc_macro2::TokenStream` apart, token by token and variant by variant:
/// an identifier and a literal give their text.
#[verifier::external_body]
fn convert_tokens(s: TokenStream) -> (r: Vec<Token>)
    ensures
        token_values(r@) == stream_contents(s),
{
    s.into_iter().map(|t| match t {
        TokenTree::Ident(i) => Token::Word(i.to_string()),
        TokenTree::Punct(p) => Token::Sign(p.as_char(), match p.spacing() {
            Spacing::Joint => true,
            Spacing::Alone => false,
        }),
        TokenTree::Literal(l) => Token::Literal(l.to_string()),
        TokenTree::Group(g) => Token::Group(match g.delimiter() {
            Delimiter::Parenthesis => Bracket::Round,
            Delimiter::Bracket => Bracket::Square,
            Delimiter::Brace => Bracket::Curly,
            Delimiter::None => Bracket::Hidden,
        }, convert_tokens(g.stream())),
    }).collect()
}

/// A text from its first line feed on.
pub open spec fn from_line_feed(s: Seq<char>) -> Seq<char>
    decreases s.len(),
{
    if s.len() == 0 || s[0] == '\n' {
        s
    } else {
        from_line_feed(s.skip(1))
    }
}

/// What is left of a source file without a byte order mark and without a first line
/// that names an interpreter.
pub open spec fn code(source: Seq<char>) -> Seq<char> {
    let s = if source.len() > 0 && source[0] == '\u{feff}' {
        source.skip(1)
    } else {
        source
    };
    if s.len() >= 2 && s[0] == '#' && s[1] == '!' && !(s.len() >= 3 && s[2] == '[') {
        from_line_feed(s)
    } else {
        s
    }
}

/// Where a token stands with regard to a list `for<..>`.
#[derive(Debug, Clone, Copy, PartialEq, Eq, Structural)]
pub enum Place {
    /// Directly behind the word.
    AfterFor,
    /// In the list, behind its opening bracket.
    InList,
    /// Directly behind the list.
    AfterList,
    Elsewhere,
}

/// Whether a token is the given punctuation character.
pub open spec fn is_sign(t: TokenView, c: char) -> bool {
    t matches TokenView::Sign(d, joint) && d == c
}

/// Where the token behind `t` stands, from where `t` does.
pub open spec fn next_place(place: Place, t: TokenView) -> Place {
    if t == TokenView::Word("for"@) {
        Place::AfterFor
    } else if place == Place::AfterFor && is_sign(t, '<') {
        Place::InList
    } else if place == Place::InList && is_sign(t, '>') {
        Place::AfterList
    } else if place == Place::InList {
        Place::InList
    } else {
        Place::Elsewhere
    }
}

/// Whether tokens begin with `dyn`, a lifetime and `+`.
pub open spec fn dyn_lifetime(ts: Seq<TokenView>) -> bool {
    &&& ts.len() >= 4
    &&& ts[0] == TokenView::Word("dyn"@)
    &&& is_sign(ts[1], '\'')
    &&& ts[2] is Word
    &&& is_sign(ts[3], '+')
}

/// Whether a list `for<..>` stands directly before `dyn`, a lifetime and `+`, among
/// the tokens or in a group of them.
pub open spec fn for_dyn_lifetime(ts: Seq<TokenView>, place: Place) -> bool
    decreases ts,
{
    if ts.len() == 0 {
        false
    } else {
        ||| place == Place::AfterList && dyn_lifetime(ts)
        ||| in_group(ts[0])
        ||| for_dyn_lifetime(ts.drop_first(), next_place(place, ts[0]))
    }
}

/// Whether the token is a group that holds such a list.
pub open spec fn in_group(t: TokenView) -> bool
    decreases t,
{
    match t {
        TokenView::Group(b, inner) => for_dyn_lifetime(inner, Place::Elsewhere),
        _ => false,
    }
}

/// Whether a source file holds a list `for<..>` directly before `dyn`, a lifetime
/// and `+`. In a `where` clause or a macro, syn reads this; as a type, it does not.
pub open spec fn has_for_dyn_lifetime(source: Seq<char>) -> bool {
    lexed(code(source)) matches Some(ts) && for_dyn_lifetime(ts, Place::Elsewhere)
}

/// The text of a token.
pub open spec fn token_text(t: TokenView) -> Seq<char>
    decreases t,
{
    match t {
        TokenView::Word(w) => w.push(' '),
        TokenView::Sign(c, joint) => if joint {
            seq![c]
        } else {
            seq![c, ' ']
        },
        TokenView::Literal(l) => l.push(' '),
        TokenView::Group(b, inner) => opening(b) + respelled(inner, Place::Elsewhere) + closing(b),
    }
}

/// What opens a group.
pub open spec fn opening(b: Bracket) -> Seq<char> {
    match b {
        Bracket::Round => seq!['(', ' '],
        Bracket::Square => seq!['[', ' '],
        Bracket::Curly => seq!['{', ' '],
        Bracket::Hidden => seq![],
    }
}

/// What closes a group.
pub open spec fn closing(b: Bracket) -> Seq<char> {
    match b {
        Bracket::Round => seq![')', ' '],
        Bracket::Square => seq![']', ' '],
        Bracket::Curly => seq!['}', ' '],
        Bracket::Hidden => seq![],
    }
}

/// The text of tokens, with `fn () ->` between a list `for<..>` and the `dyn`, the
/// lifetime and the `+` that stand directly behind it.
pub open spec fn respelled(ts: Seq<TokenView>, place: Place) -> Seq<char>
    decreases ts,
{
    if ts.len() == 0 {
        seq![]
    } else {
        (if place == Place::AfterList && dyn_lifetime(ts) {
            "fn () -> "@
        } else {
            seq![]
        }) + token_text(ts[0]) + respelled(ts.drop_first(), next_place(place, ts[0]))
    }
}

/// A source file whose lists `for<..>` stand before the type of a function that
/// returns what they stood before. Wherever a type may follow such a list, the type
/// of a function may follow it too, and it adds nothing that the metrics look at.
pub open spec fn without_for_dyn_lifetime(source: Seq<char>) -> Seq<char> {
    match lexed(code(source)) {
        Some(ts) => seq![' '] + respelled(ts, Place::Elsewhere),
        None => source,
    }
}

/// Cuts off what is no code at the beginning of a source file.
fn code_of(source: &str) -> (r: String)
    ensures
        r@ == code(source@),
{
    let chars = chars_of(source);
    let n: usize = chars.len();
    let start: usize = if n > 0 && chars[0] == '\u{feff}' {
        1
    } else {
        0
    };
    let ghost s = chars@.skip(start as int);
    assert(chars@.skip(0) =~= chars@);
    let mut i: usize = start;
    if n - start >= 2 && chars[start] == '#' && chars[start + 1] == '!' && !(n - start >= 3
        && chars[start + 2] == '[') {
        while i < n && chars[i] != '\n'
            invariant
                start <= i <= n,
                n == chars.len(),
                s == chars@.skip(start as int),
                from_line_feed(s) == from_line_feed(chars@.skip(i as int)),
            decreases n - i,
        {
            assert(chars@.skip(i as int).skip(1) =~= chars@.skip(i + 1));
            i += 1;
        }
    }
    assert(chars@.subrange(i as int, n as int) =~= chars@.skip(i as int));
    text_between(&chars, i, n)
}

/// Whether a token is the given punctuation character.
fn sign_is(t: &Token, c: char) -> (r: bool)
    ensures
        r == is_sign(t.value(), c),
{
    match t {
        Token::Sign(d, _) => *d == c,
        _ => false,
    }
}

/// Whether a token is the given word.
fn word_is(t: &Token, w: &str) -> (r: bool)
    ensures
        r == (t.value() == TokenView::Word(w@)),
{
    match t {
        Token::Word(v) => same_text(v.as_str(), w),
        _ => false,
    }
}

/// Where the token behind `t` stands, from where `t` does.
fn place_behind(place: Place, t: &Token) -> (r: Place)
    ensures
        r == next_place(place, t.value()),
{
    if word_is(t, "for") {
        Place::AfterFor
    } else if place == Place::AfterFor && sign_is(t, '<') {
        Place::InList
    } else if place == Place::InList && sign_is(t, '>') {
        Place::AfterList
    } else if place == Place::InList {
        Place::InList
    } else {
        Place::Elsewhere
    }
}

/// Whether the tokens from the `i`-th on begin with `dyn`, a lifetime and `+`.
fn dyn_lifetime_at(ts: &Vec<Token>, i: usize) -> (r: bool)
    requires
        i <= ts.len(),
    ensures
        r == dyn_lifetime(token_values(ts@).skip(i as int)),
{
    proof {
        lemma_token_values(ts@);
    }
    if ts.len() - i < 4 {
        return false;
    }
    let word: bool = match &ts[i + 2] {
        Token::Word(_) => true,
        _ => false,
    };
    word_is(&ts[i], "dyn") && sign_is(&ts[i + 1], '\'') && word && sign_is(&ts[i + 3], '+')
}

/// Whether a token is a group that holds such a list.
fn group_holds(t: &Token) -> (r: bool)
    ensures
        r == in_group(t.value()),
    decreases t,
{
    match t {
        Token::Group(_, inner) => tokens_hold(inner),
        _ => false,
    }
}

/// Whether the tokens hold such a list.
fn tokens_hold(ts: &Vec<Token>) -> (r: bool)
    ensures
        r == for_dyn_lifetime(token_values(ts@), Place::Elsewhere),
    decreases ts@,
{
    let ghost all = token_values(ts@);
    let mut place: Place = Place::Elsewhere;
    let mut i: usize = 0;
    proof {
        lemma_token_values(ts@);
        assert(all.skip(0) =~= all);
    }
    while i < ts.len()
        invariant
            i <= ts.len(),
            all == token_values(ts@),
            all.len() == ts.len(),
            forall|j: int| 0 <= j < ts.len() ==> all[j] == (#[trigger] ts[j]).value(),
            for_dyn_lifetime(all, Place::Elsewhere) == for_dyn_lifetime(all.skip(i as int), place),
        decreases ts.len() - i,
    {
        let ghost rest = all.skip(i as int);
        assert(rest[0] == ts[i as int].value());
        assert(rest.drop_first() =~= all.skip(i + 1));
        if place == Place::AfterList && dyn_lifetime_at(ts, i) {
            return true;
        }
        if group_holds(&ts[i]) {
            return true;
        }
        place = place_behind(place, &ts[i]);
        i += 1;
    }
    false
}

/// Adds the text of a token.
fn push_token(out: &mut String, t: &Token)
    ensures
        final(out)@ == old(out)@ + token_text(t.value()),
    decreases t,
{
    let ghost start = out@;
    match t {
        Token::Word(w) => {
            out.append(w.as_str());
            out.push(' ');
            assert(out@ =~= start + w@.push(' '));
        },
        Token::Sign(c, joint) => {
            out.push(*c);
            if !*joint {
                out.push(' ');
            }
            assert(out@ =~= start + token_text(t.value()));
        },
        Token::Literal(l) => {
            out.append(l.as_str());
            out.push(' ');
            assert(out@ =~= start + l@.push(' '));
        },
        Token::Group(b, inner) => {
            let (open, close) = match b {
                Bracket::Round => ('(', ')'),
                Bracket::Square => ('[', ']'),
                _ => ('{', '}'),
            };
            let hidden: bool = *b == Bracket::Hidden;
            if !hidden {
                out.push(open);
                out.push(' ');
            }
            assert(out@ =~= start + opening(*b));
            push_tokens(out, inner);
            if !hidden {
                out.push(close);
                out.push(' ');
            }
            assert(out@ =~= start + token_text(t.value()));
        },
    }
}

/// Adds the text of tokens, with what parts such lists from what follows.
fn push_tokens(out: &mut String, ts: &Vec<Token>)
    ensures
        final(out)@ == old(out)@ + respelled(token_values(ts@), Place::Elsewhere),
    decreases ts@,
{
    let ghost start = out@;
    let ghost all = token_values(ts@);
    let mut place: Place = Place::Elsewhere;
    let mut i: usize = 0;
    proof {
        lemma_token_values(ts@);
        assert(all.skip(0) =~= all);
    }
    while i < ts.len()
        invariant
            i <= ts.len(),
            all == token_values(ts@),
            all.len() == ts.len(),
            forall|j: int| 0 <= j < ts.len() ==> all[j] == (#[trigger] ts[j]).value(),
            start + respelled(all, Place::Elsewhere) == out@ + respelled(
                all.skip(i as int),
                place,
            ),
        decreases ts.len() - i,
    {
        let ghost rest = all.skip(i as int);
        let ghost before = out@;
        let ghost added = if place == Place::AfterList && dyn_lifetime(rest) {
            "fn () -> "@
        } else {
            seq![]
        };
        assert(rest[0] == ts[i as int].value());
        assert(rest.drop_first() =~= all.skip(i + 1));
        if place == Place::AfterList && dyn_lifetime_at(ts, i) {
            out.append("fn () -> ");
        }
        assert(out@ =~= before + added);
        push_token(out, &ts[i]);
        place = place_behind(place, &ts[i]);
        i += 1;
        assert(before + (added + token_text(rest[0]) + respelled(all.skip(i as int), place))
            =~= out@ + respelled(all.skip(i as int), place));
    }
    assert(out@ + Seq::<char>::empty() =~= out@);
}

/// Spells a source file that holds such a list in another way; `None` where it
/// holds none.
pub(crate) fn respell(source: &str) -> (r: Option<String>)
    ensures
        match r {
            Some(text) => has_for_dyn_lifetime(source@) && text@ == without_for_dyn_lifetime(source@),
            None => !has_for_dyn_lifetime(source@),
        },
{
    match lex(code_of(source).as_str()) {
        Some(stream) => {
            let tokens = convert_tokens(stream);
            if tokens_hold(&tokens) {
                let mut text = String::new();
                text.push(' ');
                push_tokens(&mut text, &tokens);
                assert(text@ =~= without_for_dyn_lifetime(source@));
                Some(text)
            } else {
                None
            }
        },
        None => None,
    }
}

/// Law: a byte order mark is no code, nor is a first line that begins with `#!` and goes
/// on with anything but an opening bracket. All else is.
pub proof fn lemma_code(source: Seq<char>, line: Seq<char>, rest: Seq<char>)
    requires
        !line.contains('\n'),
    ensures
        source.len() > 0 && source[0] != '\u{feff}' && source[0] != '#' ==> code(source) == source,
        source.len() == 0 ==> code(source) == source,
        code(seq!['#', '!', '['] + source) == seq!['#', '!', '['] + source,
        source.len() == 0 || source[0] != '!' ==> code(seq!['#'] + source) == seq!['#'] + source,
        source.len() > 0 && source[0] != '\u{feff}' ==> code(seq!['\u{feff}'] + source) == code(
            source,
        ),
        line.len() == 0 || line[0] != '[' ==> code(seq!['#', '!'] + line + seq!['\n'] + rest)
            == seq!['\n'] + rest,
        line.len() == 0 || line[0] != '[' ==> code(seq!['#', '!'] + line) == Seq::<char>::empty(),
{
    assert((seq!['\u{feff}'] + source).skip(1) =~= source);
    let first = seq!['#', '!'] + line;
    assert forall|i: int| 0 <= i < first.len() implies first[i] != '\n' by {
        if i >= 2 {
            assert(line.contains(first[i]));
        }
    }
    lemma_from_line_feed(first, rest);
    let with = seq!['#', '!'] + line + seq!['\n'] + rest;
    assert(with =~= first + (seq!['\n'] + rest));
    assert(with[0] == '#' && with[1] == '!');
    if line.len() > 0 {
        assert(with[2] == line[0] && first[2] == line[0]);
    } else {
        assert(with[2] == '\n');
    }
}

proof fn lemma_from_line_feed(line: Seq<char>, rest: Seq<char>)
    requires
        forall|i: int| 0 <= i < line.len() ==> line[i] != '\n',
    ensures
        from_line_feed(line + (seq!['\n'] + rest)) == seq!['\n'] + rest,
        from_line_feed(line) == Seq::<char>::empty(),
    decreases line.len(),
{
    let s = line + (seq!['\n'] + rest);
    if line.len() == 0 {
        assert(s =~= seq!['\n'] + rest);
        assert(line =~= seq![]);
    } else {
        let more = line.skip(1);
        assert forall|i: int| 0 <= i < more.len() implies more[i] != '\n' by {
            assert(more[i] == line[i + 1]);
        }
        lemma_from_line_feed(more, rest);
        assert(s[0] == line[0]);
        assert(s.skip(1) =~= more + (seq!['\n'] + rest));
    }
}

/// Law: wherever a list `for<..>` stands directly before `dyn`, a lifetime and `+`, it is
/// found, whatever stands before and behind.
pub proof fn lemma_list_is_found(
    before: Seq<TokenView>,
    list: Seq<TokenView>,
    name: Seq<char>,
    joints: Seq<bool>,
    behind: Seq<TokenView>,
    place: Place,
)
    requires
        joints.len() == 4,
        forall|i: int|
            0 <= i < list.len() ==> #[trigger] list[i] != TokenView::Word("for"@) && !is_sign(
                list[i],
                '>',
            ),
    ensures
        for_dyn_lifetime(
            before + seq![TokenView::Word("for"@), TokenView::Sign('<', joints[0])] + list + seq![
                TokenView::Sign('>', joints[1]),
                TokenView::Word("dyn"@),
                TokenView::Sign('\'', joints[2]),
                TokenView::Word(name),
                TokenView::Sign('+', joints[3]),
            ] + behind,
            place,
        ),
    decreases before.len(),
{
    let tail = seq![
        TokenView::Sign('>', joints[1]),
        TokenView::Word("dyn"@),
        TokenView::Sign('\'', joints[2]),
        TokenView::Word(name),
        TokenView::Sign('+', joints[3]),
    ];
    let word = TokenView::Word("for"@);
    let open = TokenView::Sign('<', joints[0]);
    let all = before + seq![word, open] + list + tail + behind;
    if before.len() > 0 {
        lemma_list_is_found(
            before.drop_first(),
            list,
            name,
            joints,
            behind,
            next_place(place, before[0]),
        );
        assert(all[0] == before[0]);
        assert(all.drop_first() =~= before.drop_first() + seq![word, open] + list + tail + behind);
    } else {
        lemma_list_end_is_found(list, name, joints, behind);
        let in_list = list + tail + behind;
        let from_open = seq![open] + in_list;
        assert(all[0] == word);
        assert(all.drop_first() =~= from_open);
        assert(from_open[0] == open);
        assert(from_open.drop_first() =~= in_list);
        assert(for_dyn_lifetime(from_open, Place::AfterFor));
    }
}

proof fn lemma_list_end_is_found(
    list: Seq<TokenView>,
    name: Seq<char>,
    joints: Seq<bool>,
    behind: Seq<TokenView>,
)
    requires
        joints.len() == 4,
        forall|i: int|
            0 <= i < list.len() ==> #[trigger] list[i] != TokenView::Word("for"@) && !is_sign(
                list[i],
                '>',
            ),
    ensures
        for_dyn_lifetime(
            list + seq![
                TokenView::Sign('>', joints[1]),
                TokenView::Word("dyn"@),
                TokenView::Sign('\'', joints[2]),
                TokenView::Word(name),
                TokenView::Sign('+', joints[3]),
            ] + behind,
            Place::InList,
        ),
    decreases list.len(),
{
    let tail = seq![
        TokenView::Sign('>', joints[1]),
        TokenView::Word("dyn"@),
        TokenView::Sign('\'', joints[2]),
        TokenView::Word(name),
        TokenView::Sign('+', joints[3]),
    ];
    let all = list + tail + behind;
    if list.len() > 0 {
        let rest = list.drop_first();
        assert forall|i: int| 0 <= i < rest.len() implies #[trigger] rest[i] != TokenView::Word(
            "for"@,
        ) && !is_sign(rest[i], '>') by {
            assert(rest[i] == list[i + 1]);
        }
        lemma_list_end_is_found(rest, name, joints, behind);
        assert(all[0] == list[0]);
        assert(all.drop_first() =~= rest + tail + behind);
    } else {
        let run = all.drop_first();
        assert(all[0] == tail[0]);
        assert(run[0] == tail[1] && run[1] == tail[2] && run[2] == tail[3] && run[3] == tail[4]);
        assert(dyn_lifetime(run));
        assert(for_dyn_lifetime(run, Place::AfterList));
    }
}

/// Law: such a list is found in a group wherever the group stands, and where no token is
/// the word `for` and no group holds such a list, none is found.
pub proof fn lemma_list_in_groups(
    before: Seq<TokenView>,
    b: Bracket,
    inner: Seq<TokenView>,
    behind: Seq<TokenView>,
    place: Place,
)
    ensures
        for_dyn_lifetime(inner, Place::Elsewhere) ==> for_dyn_lifetime(
            before + seq![TokenView::Group(b, inner)] + behind,
            place,
        ),
        (forall|i: int|
            0 <= i < before.len() ==> #[trigger] before[i] != TokenView::Word("for"@) && !(
            before[i] is Group && for_dyn_lifetime(before[i]->Group_1, Place::Elsewhere)))
            ==> !for_dyn_lifetime(before, Place::Elsewhere),
    decreases before.len(),
{
    let all = before + seq![TokenView::Group(b, inner)] + behind;
    if before.len() > 0 {
        let rest = before.drop_first();
        lemma_list_in_groups(rest, b, inner, behind, next_place(place, before[0]));
        assert(all[0] == before[0]);
        assert(all.drop_first() =~= rest + seq![TokenView::Group(b, inner)] + behind);
        if forall|i: int|
            0 <= i < before.len() ==> #[trigger] before[i] != TokenView::Word("for"@) && !(
            before[i] is Group && for_dyn_lifetime(before[i]->Group_1, Place::Elsewhere)) {
            assert forall|i: int| 0 <= i < rest.len() implies #[trigger] rest[i]
                != TokenView::Word("for"@) && !(rest[i] is Group && for_dyn_lifetime(
                rest[i]->Group_1,
                Place::Elsewhere,
            )) by {
                assert(rest[i] == before[i + 1]);
            }
            assert(before[0] != TokenView::Word("for"@));
            assert(!in_group(before[0]));
        }
    } else {
        assert(all[0] == TokenView::Group(b, inner));
        if for_dyn_lifetime(inner, Place::Elsewhere) {
            assert(in_group(all[0]));
        }
    }
}

/// Law: tokens are spelled one after the other where no word `for` stands among them:
/// words and literals as they are and a space behind them, signs with a space behind
/// them unless they are joined with what follows, and groups between their brackets.
pub proof fn lemma_tokens_are_spelled_in_order(
    a: Seq<TokenView>,
    b: Seq<TokenView>,
    text: Seq<char>,
    c: char,
    inner: Seq<TokenView>,
)
    requires
        forall|i: int| 0 <= i < a.len() ==> #[trigger] a[i] != TokenView::Word("for"@),
    ensures
        respelled(a + b, Place::Elsewhere) == respelled(a, Place::Elsewhere) + respelled(
            b,
            Place::Elsewhere,
        ),
        token_text(TokenView::Word(text)) == text + seq![' '],
        token_text(TokenView::Literal(text)) == text + seq![' '],
        token_text(TokenView::Sign(c, true)) == seq![c],
        token_text(TokenView::Sign(c, false)) == seq![c, ' '],
        token_text(TokenView::Group(Bracket::Round, inner)) == seq!['(', ' '] + respelled(
            inner,
            Place::Elsewhere,
        ) + seq![')', ' '],
        token_text(TokenView::Group(Bracket::Square, inner)) == seq!['[', ' '] + respelled(
            inner,
            Place::Elsewhere,
        ) + seq![']', ' '],
        token_text(TokenView::Group(Bracket::Curly, inner)) == seq!['{', ' '] + respelled(
            inner,
            Place::Elsewhere,
        ) + seq!['}', ' '],
        a.len() == 1 ==> respelled(a, Place::Elsewhere) == token_text(a[0]),
    decreases a.len(),
{
    assert(text.push(' ') =~= text + seq![' ']);
    if a.len() == 0 {
        assert(a + b =~= b);
        assert(respelled(a, Place::Elsewhere) + respelled(b, Place::Elsewhere) =~= respelled(
            b,
            Place::Elsewhere,
        ));
    } else {
        let rest = a.drop_first();
        assert forall|i: int| 0 <= i < rest.len() implies #[trigger] rest[i] != TokenView::Word(
            "for"@,
        ) by {
            assert(rest[i] == a[i + 1]);
        }
        lemma_tokens_are_spelled_in_order(rest, b, text, c, inner);
        let all = a + b;
        assert(a[0] != TokenView::Word("for"@));
        assert(all[0] == a[0]);
        assert(all.drop_first() =~= rest + b);
        assert(respelled(all, Place::Elsewhere) =~= respelled(a, Place::Elsewhere) + respelled(
            b,
            Place::Elsewhere,
        ));
        if a.len() == 1 {
            assert(respelled(rest, Place::Elsewhere) =~= seq![]);
            assert(respelled(a, Place::Elsewhere) =~= token_text(a[0]));
        }
    }
}

/// Law: where a list `for<..>` stands directly before `dyn`, a lifetime and `+`, the
/// return of a function is spelled between the two, and all else is spelled as it would
/// be by itself.
pub proof fn lemma_list_is_respelled(
    before: Seq<TokenView>,
    list: Seq<TokenView>,
    name: Seq<char>,
    joints: Seq<bool>,
    behind: Seq<TokenView>,
)
    requires
        joints.len() == 4,
        forall|i: int| 0 <= i < before.len() ==> #[trigger] before[i] != TokenView::Word("for"@),
        forall|i: int|
            0 <= i < list.len() ==> #[trigger] list[i] != TokenView::Word("for"@) && !is_sign(
                list[i],
                '>',
            ),
    ensures
        respelled(
            before + seq![TokenView::Word("for"@), TokenView::Sign('<', joints[0])] + list + seq![
                TokenView::Sign('>', joints[1]),
                TokenView::Word("dyn"@),
                TokenView::Sign('\'', joints[2]),
                TokenView::Word(name),
                TokenView::Sign('+', joints[3]),
            ] + behind,
            Place::Elsewhere,
        ) == respelled(before, Place::Elsewhere) + token_text(TokenView::Word("for"@)) + token_text(
            TokenView::Sign('<', joints[0]),
        ) + respelled(list, Place::Elsewhere) + token_text(TokenView::Sign('>', joints[1]))
            + "fn () -> "@ + respelled(
            seq![
                TokenView::Word("dyn"@),
                TokenView::Sign('\'', joints[2]),
                TokenView::Word(name),
                TokenView::Sign('+', joints[3]),
            ] + behind,
            Place::Elsewhere,
        ),
{
    let word = TokenView::Word("for"@);
    let open = TokenView::Sign('<', joints[0]);
    let close = TokenView::Sign('>', joints[1]);
    let run = seq![
        TokenView::Word("dyn"@),
        TokenView::Sign('\'', joints[2]),
        TokenView::Word(name),
        TokenView::Sign('+', joints[3]),
    ] + behind;
    let from_close = seq![close] + run;
    let from_list = list + from_close;
    let from_word = seq![word] + (seq![open] + from_list);
    assert(before + seq![word, open] + list + seq![
        close,
        TokenView::Word("dyn"@),
        TokenView::Sign('\'', joints[2]),
        TokenView::Word(name),
        TokenView::Sign('+', joints[3]),
    ] + behind =~= before + from_word);
    assert(dyn_lifetime(run));
    lemma_list_and_return(before, list, joints[0], joints[1], run);
}

proof fn lemma_list_and_return(
    before: Seq<TokenView>,
    list: Seq<TokenView>,
    opening_joint: bool,
    closing_joint: bool,
    run: Seq<TokenView>,
)
    requires
        dyn_lifetime(run),
        forall|i: int| 0 <= i < before.len() ==> #[trigger] before[i] != TokenView::Word("for"@),
        forall|i: int|
            0 <= i < list.len() ==> #[trigger] list[i] != TokenView::Word("for"@) && !is_sign(
                list[i],
                '>',
            ),
    ensures
        respelled(
            before + (seq![TokenView::Word("for"@)] + (seq![TokenView::Sign('<', opening_joint)] + (
            list + (seq![TokenView::Sign('>', closing_joint)] + run)))),
            Place::Elsewhere,
        ) == respelled(before, Place::Elsewhere) + token_text(TokenView::Word("for"@)) + token_text(
            TokenView::Sign('<', opening_joint),
        ) + respelled(list, Place::Elsewhere) + token_text(TokenView::Sign('>', closing_joint))
            + "fn () -> "@ + respelled(run, Place::Elsewhere),
{
    let from_close = seq![TokenView::Sign('>', closing_joint)] + run;
    let from_list = list + from_close;
    let from_word = seq![TokenView::Word("for"@)] + (seq![TokenView::Sign('<', opening_joint)]
        + from_list);
    lemma_tokens_are_spelled_in_order(before, from_word, seq![], ' ', seq![]);
    lemma_list_begins(opening_joint, from_list);
    lemma_list_is_spelled(list, from_close);
    lemma_return_is_spelled(closing_joint, run);
    lemma_grouping(
        respelled(before, Place::Elsewhere),
        token_text(TokenView::Word("for"@)),
        token_text(TokenView::Sign('<', opening_joint)),
        respelled(list, Place::Elsewhere),
        token_text(TokenView::Sign('>', closing_joint)),
        "fn () -> "@,
        respelled(run, Place::Elsewhere),
    );
}

proof fn lemma_grouping(
    a: Seq<char>,
    b: Seq<char>,
    c: Seq<char>,
    d: Seq<char>,
    e: Seq<char>,
    f: Seq<char>,
    g: Seq<char>,
)
    ensures
        a + (b + c + (d + (e + f + g))) == a + b + c + d + e + f + g,
{
    assert(a + (b + c + (d + (e + f + g))) =~= a + b + c + d + e + f + g);
}

proof fn lemma_list_begins(joint: bool, behind: Seq<TokenView>)
    ensures
        respelled(
            seq![TokenView::Word("for"@)] + (seq![TokenView::Sign('<', joint)] + behind),
            Place::Elsewhere,
        ) == token_text(TokenView::Word("for"@)) + token_text(TokenView::Sign('<', joint))
            + respelled(behind, Place::InList),
{
    let word = TokenView::Word("for"@);
    let open = TokenView::Sign('<', joint);
    let from_open = seq![open] + behind;
    let from_word = seq![word] + from_open;
    assert(from_word[0] == word && from_word.drop_first() =~= from_open);
    assert(from_open[0] == open && from_open.drop_first() =~= behind);
    let rest = respelled(behind, Place::InList);
    assert(respelled(from_open, Place::AfterFor) =~= token_text(open) + rest);
    assert(respelled(from_word, Place::Elsewhere) =~= token_text(word) + token_text(open) + rest);
}

proof fn lemma_return_is_spelled(joint: bool, run: Seq<TokenView>)
    requires
        dyn_lifetime(run),
    ensures
        respelled(seq![TokenView::Sign('>', joint)] + run, Place::InList) == token_text(
            TokenView::Sign('>', joint),
        ) + "fn () -> "@ + respelled(run, Place::Elsewhere),
{
    let close = TokenView::Sign('>', joint);
    let from_close = seq![close] + run;
    assert(from_close[0] == close && from_close.drop_first() =~= run);
    reveal_strlit("dyn");
    reveal_strlit("for");
    assert("dyn"@[0] != "for"@[0]);
    assert(run[0] != TokenView::Word("for"@));
    let rest = respelled(run.drop_first(), Place::Elsewhere);
    assert(respelled(run, Place::Elsewhere) =~= token_text(run[0]) + rest);
    assert(respelled(run, Place::AfterList) =~= "fn () -> "@ + respelled(run, Place::Elsewhere));
    assert(respelled(from_close, Place::InList) =~= token_text(close) + "fn () -> "@ + respelled(
        run,
        Place::Elsewhere,
    ));
}

proof fn lemma_list_is_spelled(list: Seq<TokenView>, behind: Seq<TokenView>)
    requires
        forall|i: int|
            0 <= i < list.len() ==> #[trigger] list[i] != TokenView::Word("for"@) && !is_sign(
                list[i],
                '>',
            ),
    ensures
        respelled(list + behind, Place::InList) == respelled(list, Place::Elsewhere) + respelled(
            behind,
            Place::InList,
        ),
    decreases list.len(),
{
    let all = list + behind;
    if list.len() == 0 {
        assert(all =~= behind);
        assert(all =~= list + behind);
        assert(respelled(list, Place::Elsewhere) + respelled(behind, Place::InList) =~= respelled(
            behind,
            Place::InList,
        ));
    } else {
        let rest = list.drop_first();
        assert forall|i: int| 0 <= i < rest.len() implies #[trigger] rest[i] != TokenView::Word(
            "for"@,
        ) && !is_sign(rest[i], '>') by {
            assert(rest[i] == list[i + 1]);
        }
        lemma_list_is_spelled(rest, behind);
        assert(list[0] != TokenView::Word("for"@) && !is_sign(list[0], '>'));
        assert(all[0] == list[0]);
        assert(all.drop_first() =~= rest + behind);
        assert(respelled(all, Place::InList) =~= respelled(list, Place::Elsewhere) + respelled(
            behind,
            Place::InList,
        ));
    }
}

/// Law: where no such list is found, all tokens are spelled one after the other.
pub proof fn lemma_other_tokens_are_kept(a: Seq<TokenView>, b: Seq<TokenView>, place: Place)
    requires
        !for_dyn_lifetime(a + b, place),
    ensures
        respelled(a + b, place) == respelled(a, Place::Elsewhere) + respelled(b, Place::Elsewhere),
        a.len() == 1 ==> respelled(a, Place::Elsewhere) == token_text(a[0]),
        a.len() == 0 ==> respelled(a, Place::Elsewhere).len() == 0,
    decreases a.len(),
{
    let all = a + b;
    lemma_place_makes_no_difference(all, place);
    if a.len() == 0 {
        assert(all =~= b);
        assert(respelled(a, Place::Elsewhere) + respelled(b, Place::Elsewhere) =~= respelled(
            b,
            Place::Elsewhere,
        ));
    } else {
        let rest = a.drop_first();
        assert(all[0] == a[0]);
        assert(all.drop_first() =~= rest + b);
        let next = next_place(Place::Elsewhere, a[0]);
        lemma_other_tokens_are_kept(rest, b, next);
        assert(rest + Seq::<TokenView>::empty() =~= rest);
        lemma_first_tokens(rest, b, next);
        lemma_place_makes_no_difference(rest, next);
        assert(respelled(all, Place::Elsewhere) =~= respelled(a, Place::Elsewhere) + respelled(
            b,
            Place::Elsewhere,
        ));
        if a.len() == 1 {
            assert(respelled(rest, next) =~= seq![]);
            assert(respelled(a, Place::Elsewhere) =~= token_text(a[0]));
        }
    }
}

proof fn lemma_place_makes_no_difference(ts: Seq<TokenView>, place: Place)
    requires
        !for_dyn_lifetime(ts, place),
    ensures
        !for_dyn_lifetime(ts, Place::Elsewhere),
        respelled(ts, place) == respelled(ts, Place::Elsewhere),
    decreases ts.len(),
{
    if ts.len() > 0 {
        let rest = ts.drop_first();
        if ts[0] != TokenView::Word("for"@) {
            lemma_place_makes_no_difference(rest, next_place(place, ts[0]));
        }
    }
}

proof fn lemma_first_tokens(a: Seq<TokenView>, b: Seq<TokenView>, place: Place)
    requires
        !for_dyn_lifetime(a + b, place),
    ensures
        !for_dyn_lifetime(a, place),
    decreases a.len(),
{
    let all = a + b;
    if a.len() > 0 {
        assert(all[0] == a[0]);
        assert(all.drop_first() =~= a.drop_first() + b);
        lemma_first_tokens(a.drop_first(), b, next_place(place, a[0]));
        if dyn_lifetime(a) {
            assert(all[1] == a[1] && all[2] == a[2] && all[3] == a[3]);
            assert(dyn_lifetime(all));
        }
        assert(in_group(a[0]) ==> in_group(all[0]));
    }
}

/// Law: tokens show one for each, in order, each with its text, and groups with what
/// stands in them.
pub proof fn lemma_token_value(s: Seq<Token>, t: Token)
    ensures
        token_values(s.push(t)) == token_values(s).push(t.value()),
        token_values(seq![]) == Seq::<TokenView>::empty(),
        match t {
            Token::Word(w) => t.value() == TokenView::Word(w@),
            Token::Sign(c, joint) => t.value() == TokenView::Sign(c, joint),
            Token::Literal(l) => t.value() == TokenView::Literal(l@),
            Token::Group(b, inner) => t.value() == TokenView::Group(b, token_values(inner@)),
        },
{
    let all = s.push(t);
    assert(all.drop_last() =~= s);
    assert(all.last() == t);
}

/// Whether a list that goes on at place `from` ends at place `j`, directly before `dyn`,
/// a lifetime and `+`.
pub open spec fn ends_list(ts: Seq<TokenView>, from: int, j: int) -> bool {
    &&& 0 <= from <= j
    &&& j + 4 < ts.len()
    &&& forall|k: int|
        from <= k < j ==> #[trigger] ts[k] != TokenView::Word("for"@) && !is_sign(ts[k], '>')
    &&& is_sign(ts[j], '>')
    &&& ts[j + 1] == TokenView::Word("dyn"@)
    &&& is_sign(ts[j + 2], '\'')
    &&& ts[j + 3] is Word
    &&& is_sign(ts[j + 4], '+')
}

/// Whether a list `for<..>` from place `i` to place `j` stands directly before `dyn`, a
/// lifetime and `+`.
pub open spec fn list_at(ts: Seq<TokenView>, i: int, j: int) -> bool {
    &&& 0 <= i
    &&& ends_list(ts, i + 2, j)
    &&& ts[i] == TokenView::Word("for"@)
    &&& is_sign(ts[i + 1], '<')
}

/// Law: such a list is found where one stands among the tokens or in a group of them,
/// and nowhere else.
pub proof fn lemma_where_a_list_is_found(ts: Seq<TokenView>)
    ensures
        for_dyn_lifetime(ts, Place::Elsewhere) <==> {
            ||| exists|i: int, j: int| #[trigger] list_at(ts, i, j)
            ||| exists|i: int|
                {
                    &&& 0 <= i < ts.len()
                    &&& (#[trigger] ts[i]) matches TokenView::Group(b, inner) && for_dyn_lifetime(
                        inner,
                        Place::Elsewhere,
                    )
                }
        },
{
    if for_dyn_lifetime(ts, Place::Elsewhere) {
        lemma_found_from(ts, Place::Elsewhere);
        if exists|i: int| 0 <= i < ts.len() && #[trigger] in_group(ts[i]) {
            let i = choose|i: int| 0 <= i < ts.len() && #[trigger] in_group(ts[i]);
            assert(ts[i] is Group);
        }
    }
    if exists|i: int, j: int| #[trigger] list_at(ts, i, j) {
        let (i, j) = choose|i: int, j: int| #[trigger] list_at(ts, i, j);
        let list = ts.subrange(i + 2, j);
        let joints = seq![
            ts[i + 1]->Sign_1,
            ts[j]->Sign_1,
            ts[j + 2]->Sign_1,
            ts[j + 4]->Sign_1,
        ];
        assert forall|k: int| 0 <= k < list.len() implies #[trigger] list[k] != TokenView::Word(
            "for"@,
        ) && !is_sign(list[k], '>') by {
            assert(list[k] == ts[i + 2 + k]);
        }
        lemma_list_is_found(
            ts.take(i),
            list,
            ts[j + 3]->Word_0,
            joints,
            ts.skip(j + 5),
            Place::Elsewhere,
        );
        assert(ts =~= ts.take(i) + seq![
            TokenView::Word("for"@),
            TokenView::Sign('<', joints[0]),
        ] + list + seq![
            TokenView::Sign('>', joints[1]),
            TokenView::Word("dyn"@),
            TokenView::Sign('\'', joints[2]),
            TokenView::Word(ts[j + 3]->Word_0),
            TokenView::Sign('+', joints[3]),
        ] + ts.skip(j + 5));
    }
    if exists|i: int|
        {
            &&& 0 <= i < ts.len()
            &&& (#[trigger] ts[i]) matches TokenView::Group(b, inner) && for_dyn_lifetime(
                inner,
                Place::Elsewhere,
            )
        } {
        let i = choose|i: int|
            {
                &&& 0 <= i < ts.len()
                &&& (#[trigger] ts[i]) matches TokenView::Group(b, inner) && for_dyn_lifetime(
                    inner,
                    Place::Elsewhere,
                )
            };
        if let TokenView::Group(b, inner) = ts[i] {
            lemma_list_in_groups(ts.take(i), b, inner, ts.skip(i + 1), Place::Elsewhere);
            assert(ts =~= ts.take(i) + seq![TokenView::Group(b, inner)] + ts.skip(i + 1));
        }
    }
}

/// Where a list can stand that is found from a place on.
spec fn found_from(ts: Seq<TokenView>, place: Place) -> bool {
    ||| exists|i: int| 0 <= i < ts.len() && #[trigger] in_group(ts[i])
    ||| exists|i: int, j: int| #[trigger] list_at(ts, i, j)
    ||| place == Place::AfterFor && is_sign(ts[0], '<') && exists|j: int|
        #[trigger] ends_list(ts, 1, j)
    ||| place == Place::InList && exists|j: int| #[trigger] ends_list(ts, 0, j)
    ||| place == Place::AfterList && dyn_lifetime(ts)
}

proof fn lemma_found_from(ts: Seq<TokenView>, place: Place)
    requires
        for_dyn_lifetime(ts, place),
    ensures
        found_from(ts, place),
    decreases ts.len(),
{
    let rest = ts.drop_first();
    let next = next_place(place, ts[0]);
    if place == Place::AfterList && dyn_lifetime(ts) {
    } else if in_group(ts[0]) {
    } else {
        lemma_found_from(rest, next);
        if exists|i: int| 0 <= i < rest.len() && #[trigger] in_group(rest[i]) {
            let i = choose|i: int| 0 <= i < rest.len() && #[trigger] in_group(rest[i]);
            assert(ts[i + 1] == rest[i]);
            assert(in_group(ts[i + 1]));
        } else if exists|i: int, j: int| #[trigger] list_at(rest, i, j) {
            let (i, j) = choose|i: int, j: int| #[trigger] list_at(rest, i, j);
            lemma_one_further(ts, i + 2, j);
            assert(ts[i + 1] == rest[i] && ts[i + 2] == rest[i + 1]);
            assert(list_at(ts, i + 1, j + 1));
        } else if next == Place::AfterFor {
            let j = choose|j: int| #[trigger] ends_list(rest, 1, j);
            lemma_one_further(ts, 1, j);
            assert(ts[1] == rest[0]);
            assert(list_at(ts, 0, j + 1));
        } else if next == Place::InList {
            let j = choose|j: int| #[trigger] ends_list(rest, 0, j);
            lemma_one_further(ts, 0, j);
            if place == Place::InList {
                assert(ends_list(ts, 0, j + 1));
            }
        } else {
            assert(ts[1] == rest[0] && ts[2] == rest[1] && ts[3] == rest[2] && ts[4] == rest[3]);
            assert(ends_list(ts, 0, 0));
        }
    }
}

proof fn lemma_one_further(ts: Seq<TokenView>, from: int, j: int)
    requires
        ts.len() > 0,
        ends_list(ts.drop_first(), from, j),
    ensures
        ends_list(ts, from + 1, j + 1),
{
    let rest = ts.drop_first();
    assert forall|k: int| from + 1 <= k < j + 1 implies #[trigger] ts[k] != TokenView::Word("for"@)
        && !is_sign(ts[k], '>') by {
        assert(ts[k] == rest[k - 1]);
    }
    assert(ts[j + 1] == rest[j] && ts[j + 2] == rest[j + 1] && ts[j + 3] == rest[j + 2] && ts[j + 4]
        == rest[j + 3] && ts[j + 5] == rest[j + 4]);
}

/// Law: it is the code of a file in which such a list is looked for and which is spelled
/// anew, without the mark and the line before it; text that cannot be split into tokens
/// holds no such list and stays as it is.
pub proof fn lemma_code_is_respelled(source: Seq<char>)
    requires
        source.len() > 0,
        source[0] != '\u{feff}',
    ensures
        match lexed(code(source)) {
            Some(ts) => {
                &&& has_for_dyn_lifetime(source) == for_dyn_lifetime(ts, Place::Elsewhere)
                &&& without_for_dyn_lifetime(source) == seq![' '] + respelled(ts, Place::Elsewhere)
                &&& without_for_dyn_lifetime(seq!['\u{feff}'] + source)
                    == without_for_dyn_lifetime(source)
            },
            None => {
                &&& !has_for_dyn_lifetime(source)
                &&& without_for_dyn_lifetime(source) == source
            },
        },
        has_for_dyn_lifetime(seq!['\u{feff}'] + source) == has_for_dyn_lifetime(source),
{
    lemma_code(source, seq![], seq![]);
}

}
