//! The table of metrics: its header, its rows and their colours.

use colored::Colorize;
use vstd::prelude::*;

use crate::count::{Count, CounterBlock};
#[allow(unused_imports)]
use crate::text::{lemma_decimal_reads_back, lemma_words_join, read_decimal, whitespace, words};
use crate::text::{decimal_text, pad_right, push_spaces, same_text};
#[allow(unused_imports)]
use crate::text::{blank, decimal, padded};

verus! {

broadcast use vstd::string::group_string_axioms;

/// The titles of the columns.
pub open spec fn titles() -> Seq<Seq<char>> {
    seq![
        "Functions "@,
        "Expressions "@,
        "Impls "@,
        "Traits "@,
        "Methods "@,
        "Dependency"@,
    ]
}

/// The values of texts.
pub open spec fn str_values(s: Seq<&'static str>) -> Seq<Seq<char>> {
    s.map_values(|t: &'static str| t@)
}

/// The titles of the columns.
pub fn unsafe_counters_header() -> (r: Vec<&'static str>)
    ensures
        str_values(r@) == titles(),
{
    let mut r: Vec<&'static str> = Vec::new();
    r.push("Functions ");
    r.push("Expressions ");
    r.push("Impls ");
    r.push("Traits ");
    r.push("Methods ");
    r.push("Dependency");
    assert(str_values(r@) =~= titles());
    r
}

/// Texts with a space between each two.
pub open spec fn spaced(s: Seq<Seq<char>>) -> Seq<char>
    decreases s.len(),
{
    if s.len() == 0 {
        seq![]
    } else if s.len() == 1 {
        s[0]
    } else {
        spaced(s.drop_last()) + blank(1) + s.last()
    }
}

/// The titles of the columns in one line.
pub fn header_text() -> (r: String)
    ensures
        r@ == spaced(titles()),
{
    let header = unsafe_counters_header();
    let ghost all = str_values(header@);
    assert(all.len() == header@.len());
    let mut r = header[0].to_owned();
    let mut i: usize = 1;
    assert(all.take(1)[0] == all[0]);
    while i < header.len()
        invariant
            1 <= i <= header.len(),
            all == str_values(header@),
            r@ == spaced(all.take(i as int)),
        decreases header.len() - i,
    {
        push_spaces(&mut r, 1);
        r.append(header[i]);
        assert(all.take(i + 1).drop_last() =~= all.take(i as int));
        i += 1;
    }
    assert(all.take(i as int) =~= all);
    r
}

/// The number of characters in all the texts.
pub open spec fn total_len(s: Seq<Seq<char>>) -> nat
    decreases s.len(),
{
    if s.len() == 0 {
        0
    } else {
        total_len(s.drop_last()) + s.last().len()
    }
}

/// How far the last column is from the left: as wide as the titles of the other
/// columns are, and one for each column, and one more.
pub open spec fn left_of_dependency() -> nat {
    total_len(titles().take(5)) + titles().len() + 1
}

/// The width of what is left of the last column, as a number.
pub proof fn lemma_left_of_dependency()
    ensures
        left_of_dependency() == 50,
{
    reveal_strlit("Functions ");
    reveal_strlit("Expressions ");
    reveal_strlit("Impls ");
    reveal_strlit("Traits ");
    reveal_strlit("Methods ");
    reveal_with_fuel(total_len, 6);
    let t = titles().take(5);
    assert(t.drop_last().drop_last().drop_last().drop_last().drop_last().len() == 0);
}

/// A row that is empty up to the last column.
pub fn table_row_empty() -> (r: String)
    ensures
        r@ == blank(left_of_dependency()),
        r@.len() == 50,
{
    let header = unsafe_counters_header();
    let ghost all = str_values(header@);
    let mut width: usize = 0;
    let mut i: usize = 0;
    proof {
        lemma_left_of_dependency();
        assert(all.take(0) =~= seq![]);
    }
    while i < 5
        invariant
            i <= 5,
            header.len() == 6,
            all == str_values(header@),
            width == total_len(all.take(i as int)),
            total_len(all.take(5)) < 50,
        decreases 5 - i,
    {
        proof {
            assert(all.take(i + 1).drop_last() =~= all.take(i as int));
            assert(all.take(i + 1).last() == header@[i as int]@);
            lemma_total_len_grows(all, i + 1, 5);
        }
        width += header[i].unicode_len();
        i += 1;
    }
    let mut r = String::new();
    push_spaces(&mut r, width + header.len() + 1);
    assert(r@ =~= blank(left_of_dependency()));
    r
}

/// More texts have no fewer characters.
proof fn lemma_total_len_grows(s: Seq<Seq<char>>, m: int, n: int)
    requires
        0 <= m <= n <= s.len(),
    ensures
        total_len(s.take(m)) <= total_len(s.take(n)),
    decreases n,
{
    if m < n {
        assert(s.take(n).drop_last() =~= s.take(n - 1));
        lemma_total_len_grows(s, m, n - 1);
    }
}

impl Count {
    /// The unsafe items in all files, used by the build or not.
    pub open spec fn total_unsafe(self) -> nat {
        (self.unsafe_used + self.unsafe_unused) as nat
    }

    /// The cell of a row: the unsafe items in files used by the build, and those in
    /// all files.
    pub open spec fn cell(self) -> Seq<char> {
        decimal(self.unsafe_used as nat) + seq!['/'] + decimal(self.total_unsafe())
    }
}

/// Makes the cell of a row.
fn cell_text(c: &Count) -> (r: String)
    requires
        c.total_unsafe() <= u64::MAX,
    ensures
        r@ == c.cell(),
{
    let mut r = decimal_text(c.unsafe_used);
    r.push('/');
    let total = decimal_text(c.unsafe_used + c.unsafe_unused);
    r.append(total.as_str());
    assert(r@ =~= c.cell());
    r
}

impl CounterBlock {
    /// Whether the totals of all kinds of items can be told.
    pub open spec fn totals_fit(self) -> bool {
        &&& self.functions.total_unsafe() <= u64::MAX
        &&& self.exprs.total_unsafe() <= u64::MAX
        &&& self.itemimpls.total_unsafe() <= u64::MAX
        &&& self.itemtraits.total_unsafe() <= u64::MAX
        &&& self.methods.total_unsafe() <= u64::MAX
    }

    /// The row of a crate: a cell for each kind of item, in columns of 10, 12, 6, 7
    /// and 7 characters.
    pub open spec fn row(self) -> Seq<char> {
        padded(self.functions.cell(), 10) + blank(1) + padded(self.exprs.cell(), 12) + blank(1)
            + padded(self.itemimpls.cell(), 6) + blank(1) + padded(self.itemtraits.cell(), 7)
            + blank(1) + padded(self.methods.cell(), 7)
    }
}

/// Whether the totals of all kinds of items can be told.
pub fn totals_fit(cb: &CounterBlock) -> (r: bool)
    ensures
        r == cb.totals_fit(),
{
    cb.functions.unsafe_used <= u64::MAX - cb.functions.unsafe_unused && cb.exprs.unsafe_used
        <= u64::MAX - cb.exprs.unsafe_unused && cb.itemimpls.unsafe_used <= u64::MAX
        - cb.itemimpls.unsafe_unused && cb.itemtraits.unsafe_used <= u64::MAX
        - cb.itemtraits.unsafe_unused && cb.methods.unsafe_used <= u64::MAX
        - cb.methods.unsafe_unused
}

/// Makes the row of a crate.
pub fn table_row(cb: &CounterBlock) -> (r: String)
    requires
        cb.totals_fit(),
    ensures
        r@ == cb.row(),
{
    let mut r = pad_right(cell_text(&cb.functions).as_str(), 10);
    push_spaces(&mut r, 1);
    r.append(pad_right(cell_text(&cb.exprs).as_str(), 12).as_str());
    push_spaces(&mut r, 1);
    r.append(pad_right(cell_text(&cb.itemimpls).as_str(), 6).as_str());
    push_spaces(&mut r, 1);
    r.append(pad_right(cell_text(&cb.itemtraits).as_str(), 7).as_str());
    push_spaces(&mut r, 1);
    r.append(pad_right(cell_text(&cb.methods).as_str(), 7).as_str());
    r
}

/// The sequence of characters that switches all colours and styles off.
pub open spec fn reset() -> Seq<char> {
    seq!['\u{1b}', '[', '0', 'm']
}

/// The sequence of characters that switches to a colour or a style.
pub open spec fn style(code: Seq<char>) -> Seq<char> {
    seq!['\u{1b}', '['] + code + seq!['m']
}

/// A text in which every reset is followed by a style.
pub open spec fn restyled(text: Seq<char>, style: Seq<char>) -> Seq<char>
    decreases text.len(),
{
    if text.len() < 4 {
        text
    } else if text.take(4) == reset() {
        reset() + style + restyled(text.skip(4), style)
    } else {
        seq![text[0]] + restyled(text.skip(1), style)
    }
}

/// A text in a style: behind the style and before a reset.
pub open spec fn in_style(text: Seq<char>, style: Seq<char>) -> Seq<char> {
    style + restyled(text, style) + reset()
}

/// A text that is put in a style: as it is where the output is to have no colours,
/// else in the style.
pub open spec fn styled(text: Seq<char>, style: Seq<char>, r: Seq<char>) -> bool {
    ||| r == text
    ||| r == in_style(text, style)
}

/// `red` and `bold` of the trait `colored::Colorize`, and the text of the result.
/// The environment decides whether the text gets colours.
#[verifier::external_body]
fn red_bold(text: &str) -> (r: String)
    ensures
        styled(text@, style(seq!['1', ';', '3', '1']), r@),
{
    text.red().bold().to_string()
}

/// `green` of the trait `colored::Colorize`, and the text of the result. The
/// environment decides whether the text gets colours.
#[verifier::external_body]
fn green(text: &str) -> (r: String)
    ensures
        styled(text@, style(seq!['3', '2']), r@),
{
    text.green().to_string()
}

/// `bold` of the trait `colored::Colorize`, and the text of the result. The
/// environment decides whether the text gets a style.
#[verifier::external_body]
fn bold(text: &str) -> (r: String)
    ensures
        styled(text@, style(seq!['1']), r@),
{
    text.bold().to_string()
}

/// The style of what is said of a crate: bold red where it uses unsafe code, green
/// where it does not.
pub open spec fn crate_style(unsafe_found: bool) -> Seq<char> {
    if unsafe_found {
        style(seq!['1', ';', '3', '1'])
    } else {
        style(seq!['3', '2'])
    }
}

/// Puts a text in the style of a crate.
pub fn colorize(text: &str, unsafe_found: bool) -> (r: String)
    ensures
        styled(text@, crate_style(unsafe_found), r@),
{
    if unsafe_found {
        red_bold(text)
    } else {
        green(text)
    }
}

/// The header of the table.
pub fn header_line() -> (r: String)
    ensures
        styled(spaced(titles()), style(seq!['1']), r@),
{
    bold(header_text().as_str())
}

/// The sign that stands before a crate that uses unsafe code.
pub open spec fn sign(unsafe_found: bool) -> Seq<char> {
    if unsafe_found {
        "☢"@
    } else {
        ""@
    }
}

/// The line of a package: its row, the sign, and the package behind what stands
/// before it in the tree.
pub open spec fn line_text(
    row: Seq<char>,
    unsafe_found: bool,
    treevines: Seq<char>,
    name: Seq<char>,
) -> Seq<char> {
    row + blank(2) + padded(sign(unsafe_found), 1) + blank(1) + treevines + name
}

/// Puts the line of a package together.
pub fn compose_line(row: &str, unsafe_found: bool, treevines: &str, name: &str) -> (r: String)
    ensures
        r@ == line_text(row@, unsafe_found, treevines@, name@),
{
    let sign = if unsafe_found {
        "☢"
    } else {
        ""
    };
    let mut r = row.to_owned();
    push_spaces(&mut r, 2);
    r.append(pad_right(sign, 1).as_str());
    push_spaces(&mut r, 1);
    r.append(treevines);
    r.append(name);
    r
}

/// Whether a text is the line of a package with the given counters and name: its
/// row and its name in their places, both in the style of the crate, or both
/// without any.
pub open spec fn line_of(
    counters: CounterBlock,
    treevines: Seq<char>,
    name: Seq<char>,
    text: Seq<char>,
) -> bool {
    let found = counters.uses_unsafe();
    let style = crate_style(found);
    ||| text == line_text(counters.row(), found, treevines, name)
    ||| text == line_text(
        in_style(counters.row(), style),
        found,
        treevines,
        in_style(name, style),
    )
}

/// Makes the line of a package from its counters, its name and what stands before
/// it in the tree. Row and name get colours together, or neither does.
pub fn dependency_line(counters: &CounterBlock, treevines: &str, name: &str) -> (r: String)
    requires
        counters.totals_fit(),
    ensures
        line_of(*counters, treevines@, name@, r@),
{
    let unsafe_found: bool = counters.has_unsafe();
    let row = table_row(counters);
    let styled_name = colorize(name, unsafe_found);
    let styled_row = colorize(row.as_str(), unsafe_found);
    if same_text(styled_row.as_str(), row.as_str()) || same_text(styled_name.as_str(), name) {
        compose_line(row.as_str(), unsafe_found, treevines, name)
    } else {
        compose_line(styled_row.as_str(), unsafe_found, treevines, styled_name.as_str())
    }
}

/// Law: with cells that fit their columns, the tree begins at the same place in
/// the line of a package as behind a row that is empty.
pub proof fn lemma_lines_align(cb: CounterBlock, unsafe_found: bool)
    requires
        cb.functions.cell().len() <= 10,
        cb.exprs.cell().len() <= 12,
        cb.itemimpls.cell().len() <= 6,
        cb.itemtraits.cell().len() <= 7,
        cb.methods.cell().len() <= 7,
    ensures
        cb.row().len() == 46,
        line_text(cb.row(), unsafe_found, seq![], seq![]).len() == left_of_dependency(),
{
    lemma_left_of_dependency();
    reveal_strlit("☢");
    reveal_strlit("");
}

/// Law: a text without escape sequences comes out whole between a style and a
/// reset, or as it is.
pub proof fn lemma_styled_plain(text: Seq<char>, style: Seq<char>, r: Seq<char>)
    requires
        styled(text, style, r),
        !text.contains('\u{1b}'),
    ensures
        r == text || r == style + text + reset(),
{
    lemma_restyled_plain(text, style);
}

proof fn lemma_restyled_plain(text: Seq<char>, style: Seq<char>)
    requires
        !text.contains('\u{1b}'),
    ensures
        restyled(text, style) == text,
    decreases text.len(),
{
    if text.len() >= 4 {
        assert(text[0] != '\u{1b}');
        assert(text.take(4)[0] == text[0]);
        assert(reset()[0] == '\u{1b}');
        let rest = text.skip(1);
        assert forall|i: int| 0 <= i < rest.len() implies rest[i] != '\u{1b}' by {
            assert(rest[i] == text[i + 1]);
        }
        lemma_restyled_plain(rest, style);
        assert(seq![text[0]] + rest =~= text);
    }
}

/// Law: a cell tells the unsafe items used by the build, a slash, and all the unsafe
/// items, used or not: both numbers read back, and there is one slash.
pub proof fn lemma_cell_tells_used_and_all(c: Count)
    ensures
        exists|at: int|
            {
                &&& 0 < at < c.cell().len() - 1
                &&& #[trigger] c.cell()[at] == '/'
                &&& forall|i: int| 0 <= i < c.cell().len() && i != at ==> '0' <= #[trigger] c.cell()[i] <= '9'
                &&& c.cell().take(at) == decimal(c.unsafe_used as nat)
                &&& c.cell().skip(at + 1) == decimal((c.unsafe_used + c.unsafe_unused) as nat)
                &&& read_decimal(c.cell().take(at)) == c.unsafe_used
                &&& read_decimal(c.cell().skip(at + 1)) == c.unsafe_used + c.unsafe_unused
            },
{
    let used = decimal(c.unsafe_used as nat);
    let all = decimal((c.unsafe_used + c.unsafe_unused) as nat);
    lemma_decimal_reads_back(c.unsafe_used as nat);
    lemma_decimal_reads_back((c.unsafe_used + c.unsafe_unused) as nat);
    let at = used.len() as int;
    let s = c.cell();
    assert(s[at] == '/');
    assert(s.take(at) =~= used);
    assert(s.skip(at + 1) =~= all);
    assert forall|i: int| 0 <= i < s.len() && i != at implies '0' <= #[trigger] s[i] <= '9' by {
        if i < at {
            assert(s[i] == used[i]);
        } else {
            assert(s[i] == all[i - at - 1]);
        }
    }
}

/// A cell holds no white space.
proof fn lemma_cell_is_a_word(c: Count)
    ensures
        c.cell().len() > 0,
        forall|i: int| 0 <= i < c.cell().len() ==> !whitespace(#[trigger] c.cell()[i]),
{
    lemma_cell_tells_used_and_all(c);
    let at = choose|at: int|
        {
            &&& 0 < at < c.cell().len() - 1
            &&& #[trigger] c.cell()[at] == '/'
            &&& forall|i: int| 0 <= i < c.cell().len() && i != at ==> '0' <= #[trigger] c.cell()[i] <= '9'
        };
    assert forall|i: int| 0 <= i < c.cell().len() implies !whitespace(#[trigger] c.cell()[i]) by {
        if i != at {
            assert('0' <= c.cell()[i] <= '9');
        }
    }
}

/// Spaces before a text add no words to it.
proof fn lemma_words_behind_blank(n: nat, rest: Seq<char>)
    ensures
        words(blank(n) + rest) == words(rest),
    decreases n,
{
    if n == 0 {
        assert(blank(n) + rest =~= rest);
    } else {
        let s = blank(n) + rest;
        assert(s[0] == ' ');
        assert(s.drop_first() =~= blank((n - 1) as nat) + rest);
        lemma_words_behind_blank((n - 1) as nat, rest);
    }
}

/// A word in a column is the first word of what the column begins.
proof fn lemma_words_of_column(w: Seq<char>, width: nat, rest: Seq<char>)
    requires
        w.len() > 0,
        forall|i: int| 0 <= i < w.len() ==> !whitespace(#[trigger] w[i]),
    ensures
        words(padded(w, width) + blank(1) + rest) == seq![w] + words(rest),
        words(padded(w, width)) == seq![w],
{
    let n: nat = if w.len() < width {
        (width - w.len()) as nat
    } else {
        0
    };
    lemma_words_join(w, ' ', blank(n) + rest);
    lemma_words_behind_blank(n, rest);
    assert(w.push(' ') + (blank(n) + rest) =~= padded(w, width) + blank(1) + rest);
    if n > 0 {
        let left = blank((n - 1) as nat);
        lemma_words_join(w, ' ', left);
        lemma_words_behind_blank((n - 1) as nat, seq![]);
        assert(left + Seq::<char>::empty() =~= left);
        assert(w.push(' ') + left =~= padded(w, width));
        assert(words(seq![]) =~= seq![]);
        assert(seq![w] + Seq::<Seq<char>>::empty() =~= seq![w]);
    }
}

/// Law: the words of a row are the cells of functions, expressions, `impl` blocks,
/// traits and methods, in this order, however wide they are.
pub proof fn lemma_row_holds_five_cells(cb: CounterBlock)
    ensures
        words(cb.row()) == seq![
            cb.functions.cell(),
            cb.exprs.cell(),
            cb.itemimpls.cell(),
            cb.itemtraits.cell(),
            cb.methods.cell(),
        ],
{
    let e = padded(cb.methods.cell(), 7);
    let d = padded(cb.itemtraits.cell(), 7) + blank(1) + e;
    let c = padded(cb.itemimpls.cell(), 6) + blank(1) + d;
    let b = padded(cb.exprs.cell(), 12) + blank(1) + c;
    let a = padded(cb.functions.cell(), 10) + blank(1) + b;
    lemma_cell_is_a_word(cb.functions);
    lemma_cell_is_a_word(cb.exprs);
    lemma_cell_is_a_word(cb.itemimpls);
    lemma_cell_is_a_word(cb.itemtraits);
    lemma_cell_is_a_word(cb.methods);
    lemma_words_of_column(cb.methods.cell(), 7, seq![]);
    lemma_words_of_column(cb.itemtraits.cell(), 7, e);
    lemma_words_of_column(cb.itemimpls.cell(), 6, d);
    lemma_words_of_column(cb.exprs.cell(), 12, c);
    lemma_words_of_column(cb.functions.cell(), 10, b);
    assert(cb.row() =~= a);
    assert(words(a) =~= seq![
        cb.functions.cell(),
        cb.exprs.cell(),
        cb.itemimpls.cell(),
        cb.itemtraits.cell(),
        cb.methods.cell(),
    ]);
}

/// Law: where the cells fit their columns, they begin at the places at which the
/// titles of the table do, and all else in the row is spaces.
pub proof fn lemma_row_has_columns(cb: CounterBlock)
    requires
        cb.functions.cell().len() <= 10,
        cb.exprs.cell().len() <= 12,
        cb.itemimpls.cell().len() <= 6,
        cb.itemtraits.cell().len() <= 7,
        cb.methods.cell().len() <= 7,
    ensures
        cb.row().len() == 46,
        cb.row().subrange(0, 11) == padded(cb.functions.cell(), 11),
        cb.row().subrange(11, 24) == padded(cb.exprs.cell(), 13),
        cb.row().subrange(24, 31) == padded(cb.itemimpls.cell(), 7),
        cb.row().subrange(31, 39) == padded(cb.itemtraits.cell(), 8),
        cb.row().subrange(39, 46) == padded(cb.methods.cell(), 7),
{
    let r = cb.row();
    assert(r.len() == 46);
    assert(r.subrange(0, 11) =~= padded(cb.functions.cell(), 11));
    assert(r.subrange(11, 24) =~= padded(cb.exprs.cell(), 13));
    assert(r.subrange(24, 31) =~= padded(cb.itemimpls.cell(), 7));
    assert(r.subrange(31, 39) =~= padded(cb.itemtraits.cell(), 8));
    assert(r.subrange(39, 46) =~= padded(cb.methods.cell(), 7));
}

/// Law: crates with the same unsafe items of each kind have the same row, whatever
/// safe items they hold, and a row tells the five kinds apart by their places alone.
pub proof fn lemma_row_tells_unsafe_items_only(a: CounterBlock, b: CounterBlock)
    ensures
        a.row() == b.row() <==> {
            &&& a.functions.cell() == b.functions.cell()
            &&& a.exprs.cell() == b.exprs.cell()
            &&& a.itemimpls.cell() == b.itemimpls.cell()
            &&& a.itemtraits.cell() == b.itemtraits.cell()
            &&& a.methods.cell() == b.methods.cell()
        },
        a.functions.unsafe_used == b.functions.unsafe_used && a.functions.unsafe_unused
            == b.functions.unsafe_unused ==> a.functions.cell() == b.functions.cell(),
{
    lemma_row_holds_five_cells(a);
    lemma_row_holds_five_cells(b);
    if a.row() == b.row() {
        let x = words(a.row());
        let y = words(b.row());
        assert(x[0] == y[0] && x[1] == y[1] && x[2] == y[2] && x[3] == y[3] && x[4] == y[4]);
    }
}

/// Law: the totals of a row can be told where none of them is too large for a counter.
pub proof fn lemma_totals_fit(cb: CounterBlock)
    ensures
        !cb.totals_fit() <==> {
            ||| cb.functions.unsafe_used + cb.functions.unsafe_unused > u64::MAX
            ||| cb.exprs.unsafe_used + cb.exprs.unsafe_unused > u64::MAX
            ||| cb.itemimpls.unsafe_used + cb.itemimpls.unsafe_unused > u64::MAX
            ||| cb.itemtraits.unsafe_used + cb.itemtraits.unsafe_unused > u64::MAX
            ||| cb.methods.unsafe_used + cb.methods.unsafe_unused > u64::MAX
        },
{
}

/// Law: the line of a package is its row, two spaces, the sign of radioactivity where
/// it uses unsafe code and a space where it does not, a space, what stands before it in
/// the tree, and its name.
pub proof fn lemma_line_text(
    row: Seq<char>,
    unsafe_found: bool,
    treevines: Seq<char>,
    name: Seq<char>,
)
    ensures
        line_text(row, unsafe_found, treevines, name) == row + seq![
            ' ',
            ' ',
            if unsafe_found { '\u{2622}' } else { ' ' },
            ' ',
        ] + treevines + name,
{
    reveal_strlit("☢");
    reveal_strlit("");
    assert(line_text(row, unsafe_found, treevines, name) =~= row + seq![
        ' ',
        ' ',
        if unsafe_found { '\u{2622}' } else { ' ' },
        ' ',
    ] + treevines + name);
}

/// Law: of a package, row and name stand in the line as they are, or both between
/// bold red and a reset where it uses unsafe code in the build, and between green and a
/// reset where it does not.
pub proof fn lemma_line_of_a_package(
    counters: CounterBlock,
    treevines: Seq<char>,
    name: Seq<char>,
    text: Seq<char>,
)
    requires
        line_of(counters, treevines, name, text),
        !name.contains('\u{1b}'),
    ensures
        ({
            let found = counters.functions.unsafe_used + counters.exprs.unsafe_used
                + counters.itemimpls.unsafe_used + counters.itemtraits.unsafe_used
                + counters.methods.unsafe_used > 0;
            let on = if found {
                seq!['\u{1b}', '[', '1', ';', '3', '1', 'm']
            } else {
                seq!['\u{1b}', '[', '3', '2', 'm']
            };
            let off = seq!['\u{1b}', '[', '0', 'm'];
            ||| text == line_text(counters.row(), found, treevines, name)
            ||| text == line_text(
                on + counters.row() + off,
                found,
                treevines,
                on + name + off,
            )
        }),
{
    let found = counters.uses_unsafe();
    lemma_restyled_plain(name, crate_style(found));
    let row = counters.row();
    assert forall|i: int| 0 <= i < row.len() implies row[i] != '\u{1b}' by {
        lemma_row_is_plain(counters, i);
    }
    lemma_restyled_plain(row, crate_style(found));
    assert(style(seq!['1', ';', '3', '1']) =~= seq!['\u{1b}', '[', '1', ';', '3', '1', 'm']);
    assert(style(seq!['3', '2']) =~= seq!['\u{1b}', '[', '3', '2', 'm']);
}

/// A row holds no escape sequence.
proof fn lemma_row_is_plain(cb: CounterBlock, i: int)
    requires
        0 <= i < cb.row().len(),
    ensures
        cb.row()[i] != '\u{1b}',
{
    lemma_cell_chars(cb.functions);
    lemma_cell_chars(cb.exprs);
    lemma_cell_chars(cb.itemimpls);
    lemma_cell_chars(cb.itemtraits);
    lemma_cell_chars(cb.methods);
}

proof fn lemma_cell_chars(c: Count)
    ensures
        forall|i: int| 0 <= i < c.cell().len() ==> #[trigger] c.cell()[i] != '\u{1b}',
{
    lemma_cell_tells_used_and_all(c);
    let at = choose|at: int|
        {
            &&& 0 < at < c.cell().len() - 1
            &&& #[trigger] c.cell()[at] == '/'
            &&& forall|i: int| 0 <= i < c.cell().len() && i != at ==> '0' <= #[trigger] c.cell()[i] <= '9'
        };
    assert forall|i: int| 0 <= i < c.cell().len() implies #[trigger] c.cell()[i] != '\u{1b}' by {
        if i != at {
            assert('0' <= c.cell()[i] <= '9');
        }
    }
}

/// Law: in a text that gets a style, the style comes anew behind each reset, and
/// nothing else changes.
pub proof fn lemma_restyled_joins(a: Seq<char>, b: Seq<char>, style: Seq<char>)
    requires
        !a.contains('\u{1b}'),
    ensures
        restyled(a + b, style) == a + restyled(b, style),
        restyled(seq!['\u{1b}', '[', '0', 'm'] + b, style) == seq!['\u{1b}', '[', '0', 'm'] + style
            + restyled(b, style),
        b.len() > 0 && !seq!['\u{1b}', '[', '0', 'm'].is_prefix_of(b) ==> restyled(b, style)
            == seq![b[0]] + restyled(b.skip(1), style),
    decreases a.len(),
{
    let off = seq!['\u{1b}', '[', '0', 'm'];
    assert((off + b).take(4) =~= off);
    assert((off + b).skip(4) =~= b);
    if b.len() > 0 && b.len() < 4 {
        lemma_restyled_short(b.skip(1), style);
        assert(seq![b[0]] + b.skip(1) =~= b);
    }
    if b.len() >= 4 && b.take(4) == off {
        assert(off.is_prefix_of(b));
    }
    if a.len() == 0 {
        assert(a + b =~= b);
        assert(a + restyled(b, style) =~= restyled(b, style));
    } else {
        let rest = a.skip(1);
        assert forall|i: int| 0 <= i < rest.len() implies rest[i] != '\u{1b}' by {
            assert(rest[i] == a[i + 1]);
        }
        assert(a[0] != '\u{1b}');
        lemma_restyled_joins(rest, b, style);
        let s = a + b;
        assert(s.skip(1) =~= rest + b);
        if s.len() < 4 {
            lemma_restyled_short(b, style);
            assert(restyled(s, style) == s);
        } else {
            assert(s.take(4)[0] == a[0]);
            assert(off[0] == '\u{1b}');
            assert(seq![a[0]] + (rest + restyled(b, style)) =~= a + restyled(b, style));
        }
    }
}

proof fn lemma_restyled_short(s: Seq<char>, style: Seq<char>)
    requires
        s.len() < 4,
    ensures
        restyled(s, style) == s,
{
}

/// Law: texts stand in their order, with one space between those before and those behind,
/// wherever they are parted.
pub proof fn lemma_spaced_joins(a: Seq<Seq<char>>, b: Seq<Seq<char>>, text: Seq<char>)
    requires
        a.len() > 0,
        b.len() > 0,
    ensures
        spaced(a + b) == spaced(a) + seq![' '] + spaced(b),
        spaced(seq![text]) == text,
        spaced(seq![]) == Seq::<char>::empty(),
    decreases b.len(),
{
    let all = a + b;
    assert(blank(1) =~= seq![' ']);
    assert(all.last() == b.last());
    assert(all.drop_last() =~= a + b.drop_last());
    if b.len() == 1 {
        assert(all.drop_last() =~= a);
        assert(b.last() == b[0]);
    } else {
        lemma_spaced_joins(a, b.drop_last(), text);
        assert(spaced(all) =~= spaced(a) + seq![' '] + spaced(b));
    }
}

}
