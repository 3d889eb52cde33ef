//! The dependency files (`.d`) that rustc writes during a build.
//!
//! Each line of such a file that names dependencies has the form
//! `target: file file file`. A space within a file name is written with a
//! backslash before it.

use vstd::prelude::*;

#[allow(unused_imports)]
use crate::paths::file_with_ext;
use crate::paths::{is_file_with_ext, DirEntry};
use crate::text::{chars_of, lines_of, text_between, words_of};
#[allow(unused_imports)]
use crate::text::lemma_word_len_bound;
#[allow(unused_imports)]
use crate::text::{before, lemma_before, lemma_word_len, lines, texts, whitespace, without_return, word_len, words};

verus! {

/// A target and the files that it depends on.
pub type Rule = (Seq<char>, Seq<Seq<char>>);

/// Where the first colon that a space follows stands in `line`.
pub open spec fn separator(line: Seq<char>) -> Option<nat>
    decreases line.len(),
{
    if line.len() < 2 {
        None
    } else if line[0] == ':' && line[1] == ' ' {
        Some(0)
    } else {
        match separator(line.drop_first()) {
            Some(n) => Some(n + 1),
            None => None,
        }
    }
}

/// The file name that begins with `file` and goes on in `rest` for as long as
/// it ends in a backslash, and the words that come after it. `None` where a
/// backslash ends the last word.
pub open spec fn whole_file(file: Seq<char>, rest: Seq<Seq<char>>) -> Option<
    (Seq<char>, Seq<Seq<char>>),
>
    decreases rest.len(),
{
    if file.len() > 0 && file.last() == '\\' {
        if rest.len() == 0 {
            None
        } else {
            whole_file(file.drop_last().push(' ') + rest[0], rest.drop_first())
        }
    } else {
        Some((file, rest))
    }
}

/// No more words are left after a file name than there were before it.
pub proof fn lemma_whole_file_rest(file: Seq<char>, rest: Seq<Seq<char>>)
    ensures
        whole_file(file, rest) matches Some(r) ==> r.1.len() <= rest.len(),
    decreases rest.len(),
{
    if file.len() > 0 && file.last() == '\\' && rest.len() > 0 {
        lemma_whole_file_rest(file.drop_last().push(' ') + rest[0], rest.drop_first());
    }
}

/// The file names that the words stand for. `None` where a backslash ends the
/// last word.
pub open spec fn files(ws: Seq<Seq<char>>) -> Option<Seq<Seq<char>>>
    decreases ws.len(),
{
    if ws.len() == 0 {
        Some(seq![])
    } else {
        proof {
            lemma_whole_file_rest(ws[0], ws.drop_first());
        }
        match whole_file(ws[0], ws.drop_first()) {
            None => None,
            Some((file, rest)) => match files(rest) {
                None => None,
                Some(more) => Some(seq![file] + more),
            },
        }
    }
}

/// Whether the line names dependencies.
pub open spec fn is_rule(line: Seq<char>) -> bool {
    separator(line) is Some
}

/// What the line names after its separator, as words.
pub open spec fn listed(line: Seq<char>) -> Seq<Seq<char>> {
    words(line.skip(separator(line)->0 as int + 2))
}

/// The rule that the line states.
pub open spec fn rule(line: Seq<char>) -> Rule {
    (line.take(separator(line)->0 as int), files(listed(line))->0)
}

/// Whether no line that names dependencies ends in a backslash.
pub open spec fn well_formed(contents: Seq<char>) -> bool {
    forall|i: int|
        #![trigger lines(contents)[i]]
        0 <= i < lines(contents).len() && is_rule(lines(contents)[i]) ==> files(
            listed(lines(contents)[i]),
        ) is Some
}

/// The rules that the lines state, in their order.
pub open spec fn rules_of_lines(ls: Seq<Seq<char>>) -> Seq<Rule>
    decreases ls.len(),
{
    if ls.len() == 0 {
        seq![]
    } else if is_rule(ls.last()) {
        rules_of_lines(ls.drop_last()).push(rule(ls.last()))
    } else {
        rules_of_lines(ls.drop_last())
    }
}

/// The rules of a dependency file: one for each of its lines that names
/// dependencies, in order.
pub open spec fn dep_rules(contents: Seq<char>) -> Seq<Rule> {
    rules_of_lines(lines(contents))
}

/// The rule that a target and its files make up.
pub open spec fn rule_view(r: (String, Vec<String>)) -> Rule {
    (r.0@, texts(r.1@))
}

/// The rules that the pairs make up.
pub open spec fn rules_view(rs: Seq<(String, Vec<String>)>) -> Seq<Rule> {
    rs.map_values(|r: (String, Vec<String>)| rule_view(r))
}

/// Where the first colon that a space follows stands.
fn find_separator(line: &Vec<char>) -> (r: Option<usize>)
    ensures
        r is Some <==> separator(line@) is Some,
        r is Some ==> r->0 == separator(line@)->0 && r->0 + 2 <= line.len(),
{
    let mut i: usize = 0;
    assert(line@.skip(0) =~= line@);
    while i < line.len() && line.len() - i >= 2
        invariant
            i <= line.len(),
            separator(line@) == (match separator(line@.skip(i as int)) {
                Some(n) => Some(n + i as nat),
                None => None,
            }),
        decreases line.len() - i,
    {
        let ghost rest = line@.skip(i as int);
        if line[i] == ':' && line[i + 1] == ' ' {
            assert(rest[0] == ':' && rest[1] == ' ');
            return Some(i);
        }
        assert(rest[0] == line@[i as int] && rest[1] == line@[i + 1]);
        assert(rest.drop_first() =~= line@.skip(i + 1));
        i += 1;
    }
    None
}

/// Puts the file names back together that white space has split. `None` where
/// a backslash ends the last word.
fn join_words(ws: &Vec<String>) -> (r: Option<Vec<String>>)
    ensures
        r is Some <==> files(texts(ws@)) is Some,
        r matches Some(fs) ==> texts(fs@) == files(texts(ws@))->0,
{
    let ghost all = texts(ws@);
    let mut done: Vec<String> = Vec::new();
    let mut i: usize = 0;
    proof {
        assert(all.skip(0) =~= all);
        if files(all) is Some {
            assert(texts(done@) + files(all)->0 =~= files(all)->0);
        }
    }
    while i < ws.len()
        invariant
            i <= ws.len(),
            all == texts(ws@),
            files(all) is Some <==> files(all.skip(i as int)) is Some,
            files(all) is Some ==> files(all)->0 == texts(done@) + files(all.skip(i as int))->0,
        decreases ws.len() - i,
    {
        let ghost left = all.skip(i as int);
        let ghost start = i;
        let mut file = chars_of(ws[i].as_str());
        i += 1;
        assert(left[0] == file@);
        assert(left.drop_first() =~= all.skip(i as int));
        while file.len() > 0 && file[file.len() - 1] == '\\'
            invariant
                start < i <= ws.len(),
                all == texts(ws@),
                whole_file(left[0], left.drop_first()) == whole_file(file@, all.skip(i as int)),
                left.len() > 0,
                files(all) is Some <==> files(left) is Some,
            decreases ws.len() - i,
        {
            if i == ws.len() {
                assert(all.skip(i as int).len() == 0);
                return None;
            }
            let ghost rest = all.skip(i as int);
            let ghost was = file@;
            file.pop();
            file.push(' ');
            let mut more = chars_of(ws[i].as_str());
            assert(rest[0] == more@);
            assert(rest.drop_first() =~= all.skip(i + 1));
            file.append(&mut more);
            assert(file@ =~= was.drop_last().push(' ') + rest[0]);
            i += 1;
        }
        let n: usize = file.len();
        let name = text_between(&file, 0, n);
        let ghost seen = texts(done@);
        assert(name@ =~= file@);
        done.push(name);
        assert(texts(done@) =~= seen.push(file@));
        proof {
            let rest = all.skip(i as int);
            assert(whole_file(left[0], left.drop_first()) == Some((file@, rest)));
            if files(all) is Some {
                assert(texts(done@) + files(rest)->0 =~= seen + (seq![file@] + files(rest)->0));
            }
        }
    }
    proof {
        assert(all.skip(i as int) =~= Seq::<Seq<char>>::empty());
        assert(texts(done@) + files(all.skip(i as int))->0 =~= texts(done@));
    }
    Some(done)
}

/// Reads a dependency file, one pair of target and files for each line that
/// names dependencies. `None` where such a line ends in a backslash.
pub fn try_parse_rustc_dep_info(contents: &str) -> (r: Option<Vec<(String, Vec<String>)>>)
    ensures
        r is Some <==> well_formed(contents@),
        r matches Some(rules) ==> rules_view(rules@) == dep_rules(contents@),
{
    let ls = lines_of(contents);
    let ghost all = lines(contents@);
    let mut rules: Vec<(String, Vec<String>)> = Vec::new();
    let mut i: usize = 0;
    assert(rules_view(rules@) =~= rules_of_lines(all.take(0)));
    while i < ls.len()
        invariant
            i <= ls.len(),
            all == lines(contents@),
            texts(ls@) == all,
            rules_view(rules@) == rules_of_lines(all.take(i as int)),
            forall|j: int|
                #![trigger all[j]]
                0 <= j < i && is_rule(all[j]) ==> files(listed(all[j])) is Some,
        decreases ls.len() - i,
    {
        let line = chars_of(ls[i].as_str());
        assert(line@ == all[i as int]);
        assert(all.take(i + 1).drop_last() =~= all.take(i as int));
        match find_separator(&line) {
            None => {},
            Some(pos) => {
                let target = text_between(&line, 0, pos);
                let list = text_between(&line, pos + 2, line.len());
                assert(target@ =~= line@.take(pos as int));
                assert(list@ =~= line@.skip(pos + 2));
                let ws = words_of(list.as_str());
                match join_words(&ws) {
                    None => {
                        assert(files(listed(lines(contents@)[i as int])) is None);
                        return None;
                    },
                    Some(fs) => {
                        let ghost seen = rules_view(rules@);
                        let pair = (target, fs);
                        assert(rule_view(pair) == rule(line@));
                        rules.push(pair);
                        assert(rules_view(rules@) =~= seen.push(rule(line@)));
                    },
                }
            },
        }
        i += 1;
    }
    assert(all.take(i as int) =~= all);
    Some(rules)
}

/// Reads a dependency file, one pair of target and files for each line that
/// names dependencies.
pub fn parse_rustc_dep_info(contents: &str) -> (rules: Vec<(String, Vec<String>)>)
    requires
        well_formed(contents@),
    ensures
        rules_view(rules@) == dep_rules(contents@),
{
    match try_parse_rustc_dep_info(contents) {
        Some(rules) => rules,
        None => Vec::new(),
    }
}

/// A file name that can be written into a dependency file: not empty, with no
/// white space but spaces, and ending neither in a space nor in a backslash.
pub open spec fn writable(file: Seq<char>) -> bool {
    &&& file.len() > 0
    &&& file.last() != ' '
    &&& file.last() != '\\'
    &&& forall|i: int| 0 <= i < file.len() && whitespace(#[trigger] file[i]) ==> file[i] == ' '
}

/// The file name with a backslash before each space.
pub open spec fn escaped(file: Seq<char>) -> Seq<char>
    decreases file.len(),
{
    if file.len() == 0 {
        seq![]
    } else if file[0] == ' ' {
        seq!['\\', ' '] + escaped(file.drop_first())
    } else {
        seq![file[0]] + escaped(file.drop_first())
    }
}

/// The escaped file names, with a space before each.
pub open spec fn written_files(fs: Seq<Seq<char>>) -> Seq<char>
    decreases fs.len(),
{
    if fs.len() == 0 {
        seq![]
    } else {
        seq![' '] + escaped(fs[0]) + written_files(fs.drop_first())
    }
}

/// The line that states a rule: its target, a colon, and the files, or a space
/// where there are none.
pub open spec fn written_rule(r: Rule) -> Seq<char> {
    r.0.push(':') + if r.1.len() == 0 {
        seq![' ']
    } else {
        written_files(r.1)
    }
}

/// The dependency file that states the rules, one line each.
pub open spec fn written(rs: Seq<Rule>) -> Seq<char>
    decreases rs.len(),
{
    if rs.len() == 0 {
        seq![]
    } else {
        written_rule(rs[0]).push('\n') + written(rs.drop_first())
    }
}

/// A rule that a line can state: its target holds no line feed and no colon
/// that a space follows, and each of its files is writable.
pub open spec fn writable_rule(r: Rule) -> bool {
    &&& separator(r.0) is None
    &&& forall|i: int| 0 <= i < r.0.len() ==> r.0[i] != '\n'
    &&& forall|i: int| 0 <= i < r.1.len() ==> writable(#[trigger] r.1[i])
}

/// A name without spaces is its own escaped form.
proof fn lemma_escaped_plain(file: Seq<char>)
    requires
        forall|i: int| 0 <= i < file.len() ==> file[i] != ' ',
    ensures
        escaped(file) == file,
    decreases file.len(),
{
    if file.len() > 0 {
        assert forall|i: int| 0 <= i < file.drop_first().len() implies file.drop_first()[i]
            != ' ' by {
            assert(file.drop_first()[i] == file[i + 1]);
        }
        lemma_escaped_plain(file.drop_first());
        assert(seq![file[0]] + file.drop_first() =~= file);
    }
}

/// Escaping goes piece by piece.
proof fn lemma_escaped_concat(a: Seq<char>, b: Seq<char>)
    ensures
        escaped(a + b) == escaped(a) + escaped(b),
    decreases a.len(),
{
    if a.len() == 0 {
        assert(a + b =~= b);
        assert(escaped(a) + escaped(b) =~= escaped(b));
    } else {
        assert((a + b).drop_first() =~= a.drop_first() + b);
        lemma_escaped_concat(a.drop_first(), b);
        assert((a + b)[0] == a[0]);
        assert(escaped(a + b) =~= escaped(a) + escaped(b));
    }
}

/// A word that white space or the end follows comes out first.
proof fn lemma_words_first(w: Seq<char>, tail: Seq<char>)
    requires
        w.len() > 0,
        forall|i: int| 0 <= i < w.len() ==> !whitespace(w[i]),
        tail.len() > 0 ==> whitespace(tail[0]),
    ensures
        words(w + tail) == seq![w] + words(tail),
{
    let s = w + tail;
    assert forall|i: int| 0 <= i < w.len() implies !whitespace(s[i]) by {
        assert(s[i] == w[i]);
    }
    lemma_word_len(s, w.len());
    assert(s.take(w.len() as int) =~= w);
    assert(s.skip(w.len() as int) =~= tail);
    assert(!whitespace(s[0]));
}

/// The words of an escaped name, put back together after whatever has been put
/// together before, give the name.
proof fn lemma_rejoined(acc: Seq<char>, file: Seq<char>, tail: Seq<char>)
    requires
        writable(file),
        tail.len() > 0 ==> tail[0] == ' ',
    ensures
        ({
            let ws = words(escaped(file) + tail);
            &&& ws.len() > 0
            &&& whole_file(acc + ws[0], ws.drop_first()) == Some((acc + file, words(tail)))
        }),
    decreases file.len(),
{
    let n = before(file, ' ');
    lemma_before_holds(file, ' ');
    let head = file.take(n as int);
    assert forall|i: int| 0 <= i < head.len() implies head[i] != ' ' && !whitespace(head[i]) by {
        assert(head[i] == file[i]);
    }
    lemma_escaped_plain(head);
    if n == file.len() {
        assert(head =~= file);
        lemma_words_first(file, tail);
        let ws = words(file + tail);
        assert(ws.drop_first() =~= words(tail));
        assert((acc + file).last() == file.last());
        assert(file.last() == file[file.len() - 1]);
    } else {
        let rest = file.skip(n as int + 1);
        assert(file[n as int] == ' ');
        assert(file =~= head + seq![' '] + rest);
        lemma_escaped_concat(head + seq![' '], rest);
        lemma_escaped_concat(head, seq![' ']);
        reveal_with_fuel(escaped, 2);
        assert(escaped(seq![' ']) =~= seq!['\\', ' ']);
        let w = head.push('\\');
        let after = seq![' '] + (escaped(rest) + tail);
        assert(escaped(file) + tail =~= w + after);
        lemma_words_first(w, after);
        assert(after.drop_first() =~= escaped(rest) + tail);
        assert(words(after) == words(escaped(rest) + tail));
        let ws = words(escaped(file) + tail);
        let ws1 = words(escaped(rest) + tail);
        assert(ws.drop_first() =~= ws1);
        assert(rest.len() > 0 && rest.last() == file.last()) by {
            assert(file.last() == file[file.len() - 1]);
        }
        assert(writable(rest)) by {
            assert forall|i: int|
                0 <= i < rest.len() && whitespace(#[trigger] rest[i]) implies rest[i] == ' ' by {
                assert(rest[i] == file[i + n + 1]);
            }
        }
        let acc1 = acc + head.push(' ');
        lemma_rejoined(acc1, rest, tail);
        assert((acc + w).drop_last().push(' ') + ws1[0] =~= acc1 + ws1[0]);
        assert(acc1 + rest =~= acc + file);
        assert((acc + w).last() == '\\');
    }
}

/// No `c` comes before the position that `before` gives, and one stands there
/// unless the text has ended.
proof fn lemma_before_holds(s: Seq<char>, c: char)
    ensures
        before(s, c) <= s.len(),
        forall|i: int| 0 <= i < before(s, c) ==> s[i] != c,
        before(s, c) < s.len() ==> s[before(s, c) as int] == c,
    decreases s.len(),
{
    if s.len() > 0 && s[0] != c {
        let t = s.drop_first();
        lemma_before_holds(t, c);
        assert forall|i: int| 0 <= i < before(s, c) implies s[i] != c by {
            if i > 0 {
                assert(s[i] == t[i - 1]);
            }
        }
        if before(s, c) < s.len() {
            assert(s[before(s, c) as int] == t[before(t, c) as int]);
        }
    }
}

/// A list of written files reads back as these files.
proof fn lemma_files_read_back(fs: Seq<Seq<char>>)
    requires
        forall|i: int| 0 <= i < fs.len() ==> writable(#[trigger] fs[i]),
    ensures
        files(words(written_files(fs))) == Some(fs),
    decreases fs.len(),
{
    if fs.len() > 0 {
        let more = fs.drop_first();
        assert forall|i: int| 0 <= i < more.len() implies writable(#[trigger] more[i]) by {
            assert(more[i] == fs[i + 1]);
        }
        lemma_files_read_back(more);
        let tail = written_files(more);
        lemma_rejoined(seq![], fs[0], tail);
        let text = written_files(fs);
        assert(text.drop_first() =~= escaped(fs[0]) + tail);
        let ws = words(text);
        assert(ws == words(escaped(fs[0]) + tail));
        assert(Seq::<char>::empty() + ws[0] =~= ws[0]);
        assert(Seq::<char>::empty() + fs[0] =~= fs[0]);
        assert(seq![fs[0]] + more =~= fs);
    } else {
        assert(fs =~= seq![]);
    }
}

/// An escaped writable name holds no white space but spaces, and ends as the
/// name does.
proof fn lemma_escaped_whitespace(file: Seq<char>)
    requires
        forall|i: int| 0 <= i < file.len() ==> (whitespace(file[i]) ==> file[i] == ' '),
    ensures
        forall|i: int|
            0 <= i < escaped(file).len() ==> (whitespace(#[trigger] escaped(file)[i])
                ==> escaped(file)[i] == ' '),
        file.len() > 0 ==> escaped(file).len() > 0 && escaped(file).last() == file.last(),
    decreases file.len(),
{
    if file.len() > 0 {
        let t = file.drop_first();
        assert forall|i: int| 0 <= i < t.len() && whitespace(t[i]) implies t[i] == ' ' by {
            assert(t[i] == file[i + 1]);
        }
        lemma_escaped_whitespace(t);
        let e = escaped(file);
        let k: int = if file[0] == ' ' { 2 } else { 1 };
        assert forall|i: int| 0 <= i < e.len() && whitespace(#[trigger] e[i]) implies e[i]
            == ' ' by {
            if i >= k {
                assert(e[i] == escaped(t)[i - k]);
            }
        }
        if t.len() > 0 {
            assert(e.last() == escaped(t).last());
        } else {
            assert(escaped(t) =~= seq![]);
        }
    }
}

/// Written files hold no white space but spaces, and do not end in one.
proof fn lemma_written_files_whitespace(fs: Seq<Seq<char>>)
    requires
        forall|i: int| 0 <= i < fs.len() ==> writable(#[trigger] fs[i]),
    ensures
        forall|i: int|
            0 <= i < written_files(fs).len() ==> (whitespace(#[trigger] written_files(fs)[i])
                ==> written_files(fs)[i] == ' '),
        fs.len() > 0 ==> written_files(fs).len() > 0 && !whitespace(written_files(fs).last()),
    decreases fs.len(),
{
    if fs.len() > 0 {
        let more = fs.drop_first();
        assert forall|i: int| 0 <= i < more.len() implies writable(#[trigger] more[i]) by {
            assert(more[i] == fs[i + 1]);
        }
        lemma_written_files_whitespace(more);
        lemma_escaped_whitespace(fs[0]);
        let e = escaped(fs[0]);
        let t = written_files(more);
        let all = written_files(fs);
        assert(fs[0].last() == fs[0][fs[0].len() - 1]);
        assert forall|i: int| 0 <= i < all.len() && whitespace(#[trigger] all[i]) implies all[i]
            == ' ' by {
            if 1 <= i < 1 + e.len() {
                assert(all[i] == e[i - 1]);
            } else if i >= 1 + e.len() {
                assert(all[i] == t[i - 1 - e.len()]);
            }
        }
        if more.len() > 0 {
            assert(all.last() == t.last());
        } else {
            assert(t =~= seq![]);
            assert(all.last() == e.last());
        }
    }
}

/// The separator of a line is where its target ends.
proof fn lemma_separator_found(target: Seq<char>, tail: Seq<char>)
    requires
        separator(target) is None,
        tail.len() > 0,
        tail[0] == ' ',
    ensures
        separator(target.push(':') + tail) == Some(target.len()),
    decreases target.len(),
{
    let s = target.push(':') + tail;
    if target.len() == 0 {
        assert(s[0] == ':' && s[1] == ' ');
    } else {
        let t = target.drop_first();
        assert(s.drop_first() =~= t.push(':') + tail);
        assert(s[0] == target[0]);
        if target.len() >= 2 {
            assert(s[1] == target[1]);
        } else {
            assert(s[1] == ':');
        }
        lemma_separator_found(t, tail);
    }
}

/// The line that states a writable rule states it, and is one line.
proof fn lemma_rule_read_back(r: Rule)
    requires
        writable_rule(r),
    ensures
        is_rule(written_rule(r)),
        files(listed(written_rule(r))) is Some,
        rule(written_rule(r)) == r,
        forall|i: int| 0 <= i < written_rule(r).len() ==> written_rule(r)[i] != '\n',
        written_rule(r).last() != '\r',
{
    let line = written_rule(r);
    let tail = if r.1.len() == 0 {
        seq![' ']
    } else {
        written_files(r.1)
    };
    lemma_written_files_whitespace(r.1);
    lemma_separator_found(r.0, tail);
    lemma_files_read_back(r.1);
    if r.1.len() == 0 {
        assert(tail.drop_first() =~= written_files(r.1));
    }
    let cut = line.skip(r.0.len() as int + 2);
    assert(tail[0] == ' ');
    assert(tail.drop_first() =~= cut);
    assert(words(tail) == words(cut));
    assert(line.take(r.0.len() as int) =~= r.0);
    assert forall|i: int| 0 <= i < line.len() implies line[i] != '\n' by {
        if i < r.0.len() {
            assert(line[i] == r.0[i]);
        } else if i > r.0.len() {
            assert(line[i] == tail[i - r.0.len() - 1]);
        }
    }
    assert(line.last() == tail.last());
}

/// Rules come out of lines one by one, from the front as from the back.
proof fn lemma_rules_front(first: Seq<char>, more: Seq<Seq<char>>)
    requires
        is_rule(first),
    ensures
        rules_of_lines(seq![first] + more) == seq![rule(first)] + rules_of_lines(more),
    decreases more.len(),
{
    let all = seq![first] + more;
    if more.len() == 0 {
        reveal_with_fuel(rules_of_lines, 2);
        assert(rules_of_lines(all) =~= seq![rule(first)] + rules_of_lines(more));
    } else {
        assert(all.drop_last() =~= seq![first] + more.drop_last());
        assert(all.last() == more.last());
        lemma_rules_front(first, more.drop_last());
        assert(rules_of_lines(all) =~= seq![rule(first)] + rules_of_lines(more));
    }
}

/// Law: a dependency file that states writable rules reads back as these rules.
pub proof fn lemma_dep_info_reads_back(rs: Seq<Rule>)
    requires
        forall|i: int| 0 <= i < rs.len() ==> writable_rule(#[trigger] rs[i]),
    ensures
        well_formed(written(rs)),
        dep_rules(written(rs)) == rs,
    decreases rs.len(),
{
    let text = written(rs);
    if rs.len() == 0 {
        assert(lines(text) =~= seq![]);
        assert(rs =~= seq![]);
    } else {
        let more = rs.drop_first();
        assert forall|i: int| 0 <= i < more.len() implies writable_rule(#[trigger] more[i]) by {
            assert(more[i] == rs[i + 1]);
        }
        lemma_dep_info_reads_back(more);
        let line = written_rule(rs[0]);
        let rest = written(more);
        lemma_rule_read_back(rs[0]);
        let n = line.len();
        assert forall|i: int| 0 <= i < n implies text[i] != '\n' by {
            assert(text[i] == line[i]);
        }
        assert(text[n as int] == '\n');
        lemma_before(text, '\n', n);
        assert(text.take(n as int) =~= line);
        assert(text.skip(n as int + 1) =~= rest);
        assert(without_return(line) == line);
        let all = lines(text);
        assert(all == seq![line] + lines(rest));
        lemma_rules_front(line, lines(rest));
        assert(seq![rs[0]] + more =~= rs);
        assert forall|i: int|
            #![trigger lines(text)[i]]
            0 <= i < lines(text).len() && is_rule(lines(text)[i]) implies files(
            listed(lines(text)[i]),
        ) is Some by {
            if i > 0 {
                assert(lines(text)[i] == lines(rest)[i - 1]);
            }
        }
    }
}

/// The files of all the rules, in their order.
pub open spec fn all_files(rs: Seq<Rule>) -> Seq<Seq<char>>
    decreases rs.len(),
{
    if rs.len() == 0 {
        seq![]
    } else {
        all_files(rs.drop_last()) + rs.last().1
    }
}

/// The files of all the rules.
pub fn files_of_rules(rules: &Vec<(String, Vec<String>)>) -> (r: Vec<String>)
    ensures
        texts(r@) == all_files(rules_view(rules@)),
{
    let ghost all = rules_view(rules@);
    let mut r: Vec<String> = Vec::new();
    let mut i: usize = 0;
    assert(texts(r@) =~= all_files(all.take(0)));
    while i < rules.len()
        invariant
            i <= rules.len(),
            all == rules_view(rules@),
            texts(r@) == all_files(all.take(i as int)),
        decreases rules.len() - i,
    {
        let ghost before = texts(r@);
        let ghost listed = texts(rules@[i as int].1@);
        let fs = &rules[i].1;
        let mut k: usize = 0;
        assert(before + listed.take(0) =~= before);
        while k < fs.len()
            invariant
                k <= fs.len(),
                listed == texts(fs@),
                texts(r@) == before + listed.take(k as int),
            decreases fs.len() - k,
        {
            let ghost seen = texts(r@);
            let file = fs[k].clone();
            assert(file@ == listed[k as int]);
            r.push(file);
            assert(texts(r@) =~= seen.push(listed[k as int]));
            assert(listed.take(k + 1) =~= listed.take(k as int).push(listed[k as int]));
            k += 1;
            assert(texts(r@) =~= before + listed.take(k as int));
        }
        proof {
            assert(listed.take(k as int) =~= listed);
            assert(all.take(i + 1).drop_last() =~= all.take(i as int));
            assert(all.take(i + 1).last() == rule_view(rules@[i as int]));
        }
        i += 1;
    }
    assert(all.take(i as int) =~= all);
    r
}

/// What a walk through the directory that the compiler writes to came across,
/// with its text where it is a dependency file.
pub struct DepFile {
    pub entry: DirEntry,
    pub contents: String,
}

/// Whether all the dependency files, those with the extension `d`, are well
/// formed.
pub open spec fn all_well_formed(found: Seq<DepFile>) -> bool {
    forall|i: int|
        0 <= i < found.len() && file_with_ext((#[trigger] found[i]).entry, "d"@) ==> well_formed(
            found[i].contents@,
        )
}

/// The files that the dependency files list, in their order.
pub open spec fn listed_in(found: Seq<DepFile>) -> Seq<Seq<char>>
    decreases found.len(),
{
    if found.len() == 0 {
        seq![]
    } else {
        let rest = listed_in(found.drop_last());
        if file_with_ext(found.last().entry, "d"@) {
            rest + all_files(dep_rules(found.last().contents@))
        } else {
            rest
        }
    }
}

/// The files that the dependency files among what a walk came across list; `None`
/// where one of these is malformed.
pub fn listed_files(found: &Vec<DepFile>) -> (r: Option<Vec<String>>)
    ensures
        r is Some <==> all_well_formed(found@),
        r matches Some(names) ==> texts(names@) == listed_in(found@),
{
    let mut r: Vec<String> = Vec::new();
    let mut i: usize = 0;
    assert(texts(r@) =~= listed_in(found@.take(0)));
    while i < found.len()
        invariant
            i <= found.len(),
            forall|j: int|
                0 <= j < i && file_with_ext((#[trigger] found@[j]).entry, "d"@) ==> well_formed(
                    found@[j].contents@,
                ),
            texts(r@) == listed_in(found@.take(i as int)),
        decreases found.len() - i,
    {
        assert(found@.take(i + 1).drop_last() =~= found@.take(i as int));
        if is_file_with_ext(&found[i].entry, "d") {
            match try_parse_rustc_dep_info(found[i].contents.as_str()) {
                None => {
                    assert(!all_well_formed(found@)) by {
                        assert(file_with_ext(found@[i as int].entry, "d"@));
                    }
                    return None;
                },
                Some(rules) => {
                    let ghost before = r@;
                    let mut names = files_of_rules(&rules);
                    let ghost new = names@;
                    r.append(&mut names);
                    assert(texts(r@) =~= texts(before) + texts(new));
                },
            }
        }
        i += 1;
    }
    assert(found@.take(i as int) =~= found@);
    Some(r)
}

/// Law: the separator of a line is its first colon that a space follows.
pub proof fn lemma_separator_is_first(line: Seq<char>)
    ensures
        match separator(line) {
            Some(n) => {
                &&& n + 1 < line.len()
                &&& line[n as int] == ':'
                &&& line[n as int + 1] == ' '
                &&& forall|i: int|
                    0 <= i < n ==> !(#[trigger] line[i] == ':' && line[i + 1] == ' ')
            },
            None => forall|i: int|
                0 <= i < line.len() - 1 ==> !(#[trigger] line[i] == ':' && line[i + 1] == ' '),
        },
    decreases line.len(),
{
    if line.len() >= 2 && !(line[0] == ':' && line[1] == ' ') {
        let rest = line.drop_first();
        lemma_separator_is_first(rest);
        assert forall|i: int|
            0 < i < line.len() - 1 && (separator(line) is None || i < separator(line)->0) implies !(
        #[trigger] line[i] == ':' && line[i + 1] == ' ') by {
            assert(rest[i - 1] == line[i] && rest[i] == line[i + 1]);
        }
        if let Some(n) = separator(rest) {
            assert(rest[n as int] == line[n as int + 1] && rest[n as int + 1] == line[n as int + 2]);
        }
    }
}

/// Law: words are file names, but for those that end in a backslash: such a word makes
/// up a name together with the next one, with a space in place of the backslash. A
/// backslash at the end of the last word is an error, and nothing else is one.
pub proof fn lemma_words_make_files(word: Seq<char>, next: Seq<char>, rest: Seq<Seq<char>>)
    ensures
        files(seq![]) == Some(Seq::<Seq<char>>::empty()),
        word.len() > 0 && word.last() == '\\' ==> {
            &&& files(seq![word]) is None
            &&& files(seq![word, next] + rest) == files(
                seq![word.drop_last().push(' ') + next] + rest,
            )
        },
        word.len() == 0 || word.last() != '\\' ==> files(seq![word] + rest) == (match files(rest) {
            Some(more) => Some(seq![word] + more),
            None => None,
        }),
{
    let one = seq![word];
    assert(one.drop_first() =~= seq![]);
    let ws = seq![word] + rest;
    assert(ws[0] == word);
    assert(ws.drop_first() =~= rest);
    let joined = word.drop_last().push(' ') + next;
    let both = seq![word, next] + rest;
    let less = seq![joined] + rest;
    assert(both.drop_first() =~= seq![next] + rest);
    assert(both.drop_first().drop_first() =~= rest);
    assert(less[0] == joined);
    assert(less.drop_first() =~= rest);
    if word.len() > 0 && word.last() == '\\' {
        assert(whole_file(both[0], both.drop_first()) == whole_file(joined, rest));
    }
}

/// Law: the lines of a dependency file state their rules one after the other. A line
/// with a separator states one: its target is what stands before, its files are what
/// the words behind make up. Any other line states none.
pub proof fn lemma_lines_state_rules(
    a: Seq<Seq<char>>,
    b: Seq<Seq<char>>,
    line: Seq<char>,
    n: nat,
)
    ensures
        rules_of_lines(a + b) == rules_of_lines(a) + rules_of_lines(b),
        rules_of_lines(seq![]) == Seq::<Rule>::empty(),
        separator(line) == Some(n) ==> rules_of_lines(seq![line]) == seq![
            (line.take(n as int), files(words(line.skip(n as int + 2)))->0),
        ],
        separator(line) is None ==> rules_of_lines(seq![line]) == Seq::<Rule>::empty(),
    decreases b.len(),
{
    let one = seq![line];
    assert(one.drop_last() =~= seq![]);
    assert(rules_of_lines(one.drop_last()) =~= seq![]);
    if separator(line) == Some(n) {
        assert(rules_of_lines(one) =~= seq![
            (line.take(n as int), files(words(line.skip(n as int + 2)))->0),
        ]);
    }
    if b.len() == 0 {
        assert(a + b =~= a);
        assert(rules_of_lines(a) + rules_of_lines(b) =~= rules_of_lines(a));
    } else {
        assert((a + b).drop_last() =~= a + b.drop_last());
        lemma_lines_state_rules(a, b.drop_last(), line, n);
        assert(rules_of_lines(a + b) =~= rules_of_lines(a) + rules_of_lines(b));
    }
}

/// Law: a dependency file is malformed where a line of it has a separator and the last
/// word behind that ends in a backslash, and only there.
pub proof fn lemma_malformed(contents: Seq<char>)
    ensures
        !well_formed(contents) <==> exists|i: int|
            {
                let line = #[trigger] lines(contents)[i];
                &&& 0 <= i < lines(contents).len()
                &&& separator(line) is Some
                &&& words(line.skip(separator(line)->0 as int + 2)).len() > 0
                &&& words(line.skip(separator(line)->0 as int + 2)).last().last() == '\\'
            },
{
    assert forall|i: int| 0 <= i < lines(contents).len() && is_rule(lines(contents)[i]) implies (
    files(listed(#[trigger] lines(contents)[i])) is None <==> (listed(lines(contents)[i]).len() > 0
        && listed(lines(contents)[i]).last().last() == '\\')) by {
        lemma_words_are_not_empty(
            lines(contents)[i].skip(separator(lines(contents)[i])->0 as int + 2),
        );
        lemma_trailing_backslash(listed(lines(contents)[i]));
    }
}

/// No word is empty.
proof fn lemma_words_are_not_empty(s: Seq<char>)
    ensures
        forall|i: int| 0 <= i < words(s).len() ==> (#[trigger] words(s)[i]).len() > 0,
    decreases s.len(),
{
    if s.len() == 0 {
        assert(words(s).len() == 0);
    } else {
        if whitespace(s[0]) {
            lemma_words_are_not_empty(s.drop_first());
            assert(words(s) == words(s.drop_first()));
        } else {
            lemma_word_len_bound(s);
            let n = word_len(s) as int;
            lemma_words_are_not_empty(s.skip(n));
            assert(words(s) == seq![s.take(n)] + words(s.skip(n)));
            assert(n == 1 + word_len(s.drop_first()));
            assert forall|i: int| 0 <= i < words(s).len() implies (#[trigger] words(s)[i]).len()
                > 0 by {
                if i > 0 {
                    assert(words(s)[i] == words(s.skip(n))[i - 1]);
                } else {
                    assert(words(s)[i] == s.take(n));
                }
            }
        }
    }
}

/// Words stand for no files where the last of them ends in a backslash.
proof fn lemma_trailing_backslash(ws: Seq<Seq<char>>)
    requires
        forall|i: int| 0 <= i < ws.len() ==> (#[trigger] ws[i]).len() > 0,
    ensures
        files(ws) is None <==> ws.len() > 0 && ws.last().last() == '\\',
    decreases ws.len(),
{
    if ws.len() > 0 {
        let word = ws[0];
        let rest = ws.drop_first();
        assert(ws =~= seq![word] + rest);
        assert forall|i: int| 0 <= i < rest.len() implies (#[trigger] rest[i]).len() > 0 by {
            assert(rest[i] == ws[i + 1]);
        }
        if word.last() != '\\' {
            lemma_words_make_files(word, word, rest);
            lemma_trailing_backslash(rest);
            if rest.len() > 0 {
                assert(ws.last() == rest.last());
            }
        } else if rest.len() == 0 {
            assert(ws =~= seq![word]);
            lemma_words_make_files(word, word, rest);
        } else {
            let next = rest[0];
            let more = rest.drop_first();
            let joined = word.drop_last().push(' ') + next;
            let less = seq![joined] + more;
            assert(ws =~= seq![word, next] + more);
            lemma_words_make_files(word, next, more);
            assert forall|i: int| 0 <= i < less.len() implies (#[trigger] less[i]).len() > 0 by {
                if i > 0 {
                    assert(less[i] == rest[i]);
                }
            }
            lemma_trailing_backslash(less);
            if more.len() > 0 {
                assert(less.last() == more.last() && ws.last() == more.last());
            } else {
                assert(joined.last() == next.last());
            }
        }
    }
}

/// Law: the files of rules are those of one rule after the other.
pub proof fn lemma_files_of_rules_join(a: Seq<Rule>, b: Seq<Rule>, r: Rule)
    ensures
        all_files(a + b) == all_files(a) + all_files(b),
        all_files(seq![r]) == r.1,
        all_files(seq![]) == Seq::<Seq<char>>::empty(),
    decreases b.len(),
{
    assert(seq![r].drop_last() =~= seq![]);
    assert(all_files(seq![r].drop_last()) =~= seq![]);
    assert(all_files(seq![r]) =~= r.1);
    if b.len() == 0 {
        assert(a + b =~= a);
        assert(all_files(a) + all_files(b) =~= all_files(a));
    } else {
        assert((a + b).drop_last() =~= a + b.drop_last());
        lemma_files_of_rules_join(a, b.drop_last(), r);
        assert(all_files(a + b) =~= all_files(a) + all_files(b));
    }
}

/// Law: what a walk came across lists its files one after the other: a file with the
/// extension `d` those of all the rules of its lines, anything else none.
pub proof fn lemma_found_files_join(a: Seq<DepFile>, b: Seq<DepFile>, f: DepFile)
    ensures
        listed_in(a + b) == listed_in(a) + listed_in(b),
        listed_in(seq![f]) == if file_with_ext(f.entry, "d"@) {
            all_files(rules_of_lines(lines(f.contents@)))
        } else {
            Seq::<Seq<char>>::empty()
        },
        listed_in(seq![]) == Seq::<Seq<char>>::empty(),
        all_well_formed(a + b) <==> all_well_formed(a) && all_well_formed(b),
        all_well_formed(seq![f]) <==> !file_with_ext(f.entry, "d"@) || well_formed(f.contents@),
    decreases b.len(),
{
    let all = a + b;
    assert(seq![f].drop_last() =~= seq![]);
    assert(listed_in(seq![f].drop_last()) =~= seq![]);
    assert(listed_in(seq![f]) =~= if file_with_ext(f.entry, "d"@) {
        all_files(rules_of_lines(lines(f.contents@)))
    } else {
        Seq::<Seq<char>>::empty()
    });
    assert(seq![f][0] == f);
    assert forall|i: int| 0 <= i < a.len() implies a[i] == all[i] by {}
    assert forall|i: int| 0 <= i < b.len() implies b[i] == #[trigger] all[a.len() + i] by {}
    if all_well_formed(all) {
        assert forall|i: int| 0 <= i < b.len() && file_with_ext((#[trigger] b[i]).entry, "d"@)
            implies well_formed(b[i].contents@) by {
            assert(b[i] == all[a.len() + i]);
        }
        assert forall|i: int| 0 <= i < a.len() && file_with_ext((#[trigger] a[i]).entry, "d"@)
            implies well_formed(a[i].contents@) by {
            assert(a[i] == all[i]);
        }
    }
    if all_well_formed(a) && all_well_formed(b) {
        assert forall|i: int| 0 <= i < all.len() && file_with_ext((#[trigger] all[i]).entry, "d"@)
            implies well_formed(all[i].contents@) by {
            if i < a.len() {
                assert(all[i] == a[i]);
            } else {
                assert(all[i] == b[i - a.len()]);
            }
        }
    }
    if b.len() == 0 {
        assert(a + b =~= a);
        assert(listed_in(a) + listed_in(b) =~= listed_in(a));
    } else {
        assert((a + b).drop_last() =~= a + b.drop_last());
        lemma_found_files_join(a, b.drop_last(), f);
        assert(listed_in(a + b) =~= listed_in(a) + listed_in(b));
    }
}

}
