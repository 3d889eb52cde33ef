//! What the calls of the compiler during a build tell about the files that it
//! reads.

use vstd::prelude::*;
#[allow(unused_imports)]
use vstd::utf8::{decode_utf8, valid_utf8};

use crate::paths::FilePath;
#[allow(unused_imports)]
use crate::paths::PartView;
#[allow(unused_imports)]
use crate::rs_files::path_values;
use crate::rs_files::PathSet;
use crate::text::{chars_of, text_from_bytes};
#[allow(unused_imports)]
use crate::text::utf8_lossy;

verus! {

broadcast use vstd::string::group_string_axioms;

/// What is gathered from the calls of the compiler.
#[derive(Debug)]
pub struct CustomExecutorInnerContext {
    /// Stores all lib.rs, main.rs etc. passed to rustc during the build.
    pub rs_file_args: PathSet,
    /// The directories that the compiler writes to.
    pub out_dir_args: PathSet,
}

impl CustomExecutorInnerContext {
    /// Nothing gathered yet.
    pub fn new() -> (r: CustomExecutorInnerContext)
        ensures
            r.rs_file_args@.is_empty(),
            r.out_dir_args@.is_empty(),
    {
        CustomExecutorInnerContext { rs_file_args: PathSet::new(), out_dir_args: PathSet::new() }
    }
}

/// Adds what was taken from a call of the compiler: the canonical paths of its
/// source files, and the directory that it writes to, where there is one.
pub fn record(
    ctx: &mut CustomExecutorInnerContext,
    canonical: &Vec<FilePath>,
    out_dir: Option<&FilePath>,
)
    ensures
        final(ctx).rs_file_args@ == old(ctx).rs_file_args@.union(
            path_values(canonical@).to_set(),
        ),
        final(ctx).out_dir_args@ == (match out_dir {
            Some(dir) => old(ctx).out_dir_args@.insert(dir.value()),
            None => old(ctx).out_dir_args@,
        }),
{
    let ghost start = ctx.rs_file_args@;
    let ghost dirs = ctx.out_dir_args@;
    let ghost values = path_values(canonical@);
    let mut i: usize = 0;
    assert(values.take(0).to_set() =~= Set::<Seq<PartView>>::empty());
    assert(start.union(values.take(0).to_set()) =~= start);
    while i < canonical.len()
        invariant
            i <= canonical.len(),
            values == path_values(canonical@),
            ctx.rs_file_args@ == start.union(values.take(i as int).to_set()),
            ctx.out_dir_args@ == dirs,
        decreases canonical.len() - i,
    {
        ctx.rs_file_args.insert(canonical[i].copy());
        proof {
            let seen = values.take(i as int);
            let more = values.take(i + 1);
            assert(more =~= seen.push(values[i as int]));
            assert forall|k: Seq<PartView>| more.contains(k) == (seen.contains(k) || k
                == values[i as int]) by {
                assert(more[i as int] == values[i as int]);
                if seen.contains(k) {
                    let j = seen.index_of(k);
                    assert(more[j] == k);
                }
            }
            assert(ctx.rs_file_args@ =~= start.union(more.to_set()));
        }
        i += 1;
    }
    assert(values.take(i as int) =~= values);
    if let Some(dir) = out_dir {
        ctx.out_dir_args.insert(dir.copy());
    }
}

/// The values of the paths before the first that there is not.
pub open spec fn before_failure(found: Seq<Option<FilePath>>) -> Seq<Seq<PartView>>
    decreases found.len(),
{
    if found.len() == 0 {
        seq![]
    } else {
        match found[0] {
            Some(p) => seq![p.value()] + before_failure(found.drop_first()),
            None => seq![],
        }
    }
}

/// Adds what was taken from a call of the compiler, and tells whether that is all:
/// the canonical paths of its source files, up to the first that has none, and the
/// directory that it writes to, where every source file has one.
pub fn record_call(
    ctx: &mut CustomExecutorInnerContext,
    found: &Vec<Option<FilePath>>,
    out_dir: &FilePath,
) -> (r: bool)
    ensures
        r == (forall|i: int| 0 <= i < found@.len() ==> (#[trigger] found@[i]) is Some),
        final(ctx).rs_file_args@ == old(ctx).rs_file_args@.union(before_failure(found@).to_set()),
        final(ctx).out_dir_args@ == (if r {
            old(ctx).out_dir_args@.insert(out_dir.value())
        } else {
            old(ctx).out_dir_args@
        }),
{
    let mut canonical: Vec<FilePath> = Vec::new();
    let mut i: usize = 0;
    assert(found@.skip(0) =~= found@);
    assert(path_values(canonical@) + before_failure(found@) =~= before_failure(found@));
    while i < found.len()
        invariant
            i <= found.len(),
            *ctx == *old(ctx),
            forall|j: int| 0 <= j < i ==> (#[trigger] found@[j]) is Some,
            before_failure(found@) == path_values(canonical@) + before_failure(
                found@.skip(i as int),
            ),
        decreases found.len() - i,
    {
        let ghost rest = found@.skip(i as int);
        let ghost seen = path_values(canonical@);
        assert(rest[0] == found@[i as int]);
        assert(rest.drop_first() =~= found@.skip(i + 1));
        match &found[i] {
            Some(p) => {
                canonical.push(p.copy());
                assert(path_values(canonical@) =~= seen.push(p.value()));
                assert(seen + (seq![p.value()] + before_failure(rest.drop_first())) =~= seen.push(
                    p.value(),
                ) + before_failure(rest.drop_first()));
            },
            None => {
                assert(seen + Seq::<Seq<PartView>>::empty() =~= seen);
                record(ctx, &canonical, None);
                return false;
            },
        }
        i += 1;
    }
    assert(path_values(canonical@) + before_failure(found@.skip(i as int)) =~= path_values(
        canonical@,
    ));
    record(ctx, &canonical, Some(out_dir));
    true
}

/// What is missing among the arguments of a call; with the call.
#[derive(Debug)]
pub enum ArgsError {
    OutDirKeyMissing(String),
    OutDirValueMissing(String),
}

/// What to take from the arguments of a call, by their places.
#[derive(Debug)]
pub struct ExecPlan {
    /// The directory that the compiler writes to.
    pub out_dir: usize,
    /// The source files.
    pub rs_files: Vec<usize>,
}

/// The argument before the directory that the compiler writes to: `--out-dir`.
pub open spec fn out_dir_key() -> Seq<u8> {
    seq![45u8, 45, 111, 117, 116, 45, 100, 105, 114]
}

/// Where the key stands first among arguments.
pub open spec fn key_place(args: Seq<Seq<u8>>) -> Option<nat>
    decreases args.len(),
{
    if args.len() == 0 {
        None
    } else if args[0] == out_dir_key() {
        Some(0)
    } else {
        match key_place(args.drop_first()) {
            Some(n) => Some(n + 1),
            None => None,
        }
    }
}

/// The values of arguments.
pub open spec fn arg_values(args: Seq<Vec<u8>>) -> Seq<Seq<u8>> {
    args.map_values(|a: Vec<u8>| a@)
}

/// Whether an argument is the key.
fn is_out_dir_key(arg: &Vec<u8>) -> (r: bool)
    ensures
        r == (arg@ == out_dir_key()),
{
    if arg.len() != 9 {
        return false;
    }
    let r: bool = arg[0] == 45 && arg[1] == 45 && arg[2] == 111 && arg[3] == 117 && arg[4] == 116
        && arg[5] == 45 && arg[6] == 100 && arg[7] == 105 && arg[8] == 114;
    proof {
        if r {
            assert(arg@ =~= out_dir_key());
        }
    }
    r
}

/// Finds the directory that the compiler writes to: the argument behind the first
/// `--out-dir`.
pub fn find_out_dir(args: &Vec<Vec<u8>>, cmd: &str) -> (r: Result<usize, ArgsError>)
    ensures
        match key_place(arg_values(args@)) {
            None => r matches Err(ArgsError::OutDirKeyMissing(text)) && text@ == cmd@,
            Some(n) => if n + 1 < args@.len() {
                r matches Ok(i) && i == n + 1
            } else {
                r matches Err(ArgsError::OutDirValueMissing(text)) && text@ == cmd@
            },
        },
{
    let ghost all = arg_values(args@);
    let mut i: usize = 0;
    assert(all.skip(0) =~= all);
    while i < args.len()
        invariant
            i <= args.len(),
            all == arg_values(args@),
            key_place(all) == (match key_place(all.skip(i as int)) {
                Some(n) => Some((n + i) as nat),
                None => None,
            }),
        decreases args.len() - i,
    {
        assert(all.skip(i as int)[0] == args@[i as int]@);
        assert(all.skip(i as int).drop_first() =~= all.skip(i + 1));
        if is_out_dir_key(&args[i]) {
            return if i + 1 < args.len() {
                Ok(i + 1)
            } else {
                Err(ArgsError::OutDirValueMissing(cmd.to_owned()))
            };
        }
        i += 1;
    }
    Err(ArgsError::OutDirKeyMissing(cmd.to_owned()))
}

/// The text that `str::to_lowercase` makes of a text.
pub uninterp spec fn lowercase(text: Seq<char>) -> Seq<char>;

/// Whether a text holds ASCII characters only.
pub open spec fn all_ascii(text: Seq<char>) -> bool {
    forall|i: int| 0 <= i < text.len() ==> (#[trigger] text[i] as u32) < 128
}

/// A text with small letters in place of the capital ones of ASCII.
pub open spec fn ascii_lowercase(text: Seq<char>) -> Seq<char> {
    text.map_values(
        |c: char|
            if 'A' <= c && c <= 'Z' {
                (c as u32 + 32) as char
            } else {
                c
            },
    )
}

/// `str::to_lowercase`: the text in lower case, as Unicode defines it. In a text of
/// ASCII characters, the capital letters become small ones, and the rest is kept.
/// What becomes of other characters is not stated here; it depends on the text
/// alone.
#[verifier::external_body]
fn lowercase_text(text: &str) -> (r: String)
    ensures
        r@ == lowercase(text@),
        all_ascii(text@) ==> r@ == ascii_lowercase(text@),
{
    text.to_lowercase()
}

/// Whether a text ends in `.rs`.
pub open spec fn rs_ending(text: Seq<char>) -> bool {
    &&& text.len() >= 3
    &&& text[text.len() - 3] == '.'
    &&& text[text.len() - 2] == 'r'
    &&& text[text.len() - 1] == 's'
}

/// Whether a text ends in `.rs`.
pub fn ends_with_rs(text: &str) -> (r: bool)
    ensures
        r == rs_ending(text@),
{
    let chars = chars_of(text);
    let n: usize = chars.len();
    n >= 3 && chars[n - 3] == '.' && chars[n - 2] == 'r' && chars[n - 1] == 's'
}

/// Whether an argument is a source file, whatever the case of its ending.
pub open spec fn rs_file_arg(arg: Seq<u8>) -> bool {
    rs_ending(lowercase(utf8_lossy(arg)))
}

/// Whether what is a source file among arguments is known of those that are written
/// in ASCII.
pub open spec fn ascii_args_known(args: Seq<Seq<u8>>) -> bool {
    forall|i: int|
        0 <= i < args.len() && valid_utf8(#[trigger] args[i]) && all_ascii(decode_utf8(args[i]))
            ==> rs_file_arg(args[i]) == rs_ending(ascii_lowercase(decode_utf8(args[i])))
}

/// The places of the source files among arguments.
pub open spec fn rs_file_places(args: Seq<Seq<u8>>) -> Seq<int>
    decreases args.len(),
{
    if args.len() == 0 {
        seq![]
    } else {
        let rest = rs_file_places(args.drop_last());
        if rs_file_arg(args.last()) {
            rest.push(args.len() - 1)
        } else {
            rest
        }
    }
}

/// The values of places.
pub open spec fn places(s: Seq<usize>) -> Seq<int> {
    s.map_values(|i: usize| i as int)
}

/// Finds the source files among arguments.
pub fn find_rs_files(args: &Vec<Vec<u8>>) -> (r: Vec<usize>)
    ensures
        places(r@) == rs_file_places(arg_values(args@)),
        ascii_args_known(arg_values(args@)),
{
    let ghost all = arg_values(args@);
    let mut r: Vec<usize> = Vec::new();
    let mut i: usize = 0;
    assert(places(r@) =~= rs_file_places(all.take(0)));
    while i < args.len()
        invariant
            i <= args.len(),
            all == arg_values(args@),
            places(r@) == rs_file_places(all.take(i as int)),
            ascii_args_known(all.take(i as int)),
        decreases args.len() - i,
    {
        let ghost before = places(r@);
        assert(all.take(i + 1).drop_last() =~= all.take(i as int));
        assert(all.take(i + 1).last() == args@[i as int]@);
        let text = text_from_bytes(&args[i]);
        if ends_with_rs(lowercase_text(text.as_str()).as_str()) {
            r.push(i);
            assert(places(r@) =~= before.push(i as int));
        }
        i += 1;
        assert forall|j: int|
            0 <= j < i && valid_utf8(#[trigger] all.take(i as int)[j]) && all_ascii(
                decode_utf8(all.take(i as int)[j]),
            ) implies rs_file_arg(all.take(i as int)[j]) == rs_ending(
            ascii_lowercase(decode_utf8(all.take(i as int)[j])),
        ) by {
            if j < i - 1 {
                assert(all.take(i - 1)[j] == all.take(i as int)[j]);
            }
        }
    }
    assert(all.take(i as int) =~= all);
    r
}

/// Works out what to take from the arguments of a call of the compiler.
pub fn plan_exec(args: &Vec<Vec<u8>>, cmd: &str) -> (r: Result<ExecPlan, ArgsError>)
    ensures
        match key_place(arg_values(args@)) {
            None => r matches Err(ArgsError::OutDirKeyMissing(text)) && text@ == cmd@,
            Some(n) => if n + 1 < args@.len() {
                r matches Ok(plan) && plan.out_dir == n + 1 && places(plan.rs_files@)
                    == rs_file_places(arg_values(args@)) && ascii_args_known(arg_values(args@))
            } else {
                r matches Err(ArgsError::OutDirValueMissing(text)) && text@ == cmd@
            },
        },
{
    match find_out_dir(args, cmd) {
        Ok(out_dir) => Ok(ExecPlan { out_dir, rs_files: find_rs_files(args) }),
        Err(e) => Err(e),
    }
}

/// Law: the key is found where it stands first among the arguments, and nowhere where
/// it does not stand among them.
pub proof fn lemma_key_place(args: Seq<Seq<u8>>)
    ensures
        match key_place(args) {
            Some(n) => {
                &&& n < args.len()
                &&& args[n as int] == out_dir_key()
                &&& forall|i: int| 0 <= i < n ==> #[trigger] args[i] != out_dir_key()
            },
            None => !args.contains(out_dir_key()),
        },
    decreases args.len(),
{
    if args.len() > 0 && args[0] != out_dir_key() {
        let rest = args.drop_first();
        lemma_key_place(rest);
        match key_place(rest) {
            Some(n) => {
                assert(args[n as int + 1] == rest[n as int]);
                assert forall|i: int| 0 <= i < n + 1 implies #[trigger] args[i]
                    != out_dir_key() by {
                    if i > 0 {
                        assert(args[i] == rest[i - 1]);
                    }
                }
            },
            None => {
                if args.contains(out_dir_key()) {
                    let i = args.index_of(out_dir_key());
                    assert(rest[i - 1] == out_dir_key());
                }
            },
        }
    }
}

/// Law: the key is spelled `--out-dir`.
pub proof fn lemma_out_dir_key()
    ensures
        out_dir_key().len() == "--out-dir"@.len(),
        forall|i: int|
            0 <= i < out_dir_key().len() ==> #[trigger] out_dir_key()[i] as int == "--out-dir"@[i]
                as int,
{
    reveal_strlit("--out-dir");
}

/// Law: a text ends in `.rs` where it is some text and `.rs` behind it.
pub proof fn lemma_rs_ending(stem: Seq<char>, text: Seq<char>)
    ensures
        rs_ending(stem + seq!['.', 'r', 's']),
        rs_ending(text) ==> text == text.take(text.len() - 3) + seq!['.', 'r', 's'],
{
    if rs_ending(text) {
        assert(text =~= text.take(text.len() - 3) + seq!['.', 'r', 's']);
    }
}

/// Law: the places of the source files among arguments are those of the arguments that
/// end in `.rs` once they are in lower case, in ascending order.
pub proof fn lemma_rs_file_places(args: Seq<Seq<u8>>, i: int)
    ensures
        rs_file_places(args).contains(i) <==> 0 <= i < args.len() && rs_ending(
            lowercase(utf8_lossy(args[i])),
        ),
        forall|j: int, k: int|
            0 <= j < k < rs_file_places(args).len() ==> #[trigger] rs_file_places(args)[j]
                < #[trigger] rs_file_places(args)[k],
        forall|j: int|
            0 <= j < rs_file_places(args).len() ==> 0 <= #[trigger] rs_file_places(args)[j]
                < args.len(),
    decreases args.len(),
{
    if args.len() > 0 {
        let front = args.drop_last();
        let rest = rs_file_places(front);
        let all = rs_file_places(args);
        lemma_rs_file_places(front, i);
        if 0 <= i < front.len() {
            assert(front[i] == args[i]);
        }
        if rest.contains(i) {
            assert(all[rest.index_of(i)] == i);
        }
        if rs_file_arg(args.last()) {
            assert(all[rest.len() as int] == args.len() - 1);
        }
        if all.contains(i) {
            let at = all.index_of(i);
            if at < rest.len() {
                assert(rest[at] == i);
            }
        }
        assert forall|j: int| 0 <= j < all.len() implies 0 <= #[trigger] all[j] < args.len() by {
            if j < rest.len() {
                assert(all[j] == rest[j]);
            }
        }
        assert forall|j: int, k: int| 0 <= j < k < all.len() implies #[trigger] all[j]
            < #[trigger] all[k] by {
            assert(all[j] == rest[j]);
            if k < rest.len() {
                assert(all[k] == rest[k]);
            }
        }
    }
}

/// Law: where every path is there, all of them come before the first that is not; where
/// one is not, those that stand before it do, and none behind it.
pub proof fn lemma_before_failure(paths: Seq<FilePath>, rest: Seq<Option<FilePath>>)
    ensures
        before_failure(paths.map_values(|p: FilePath| Some(p))) == path_values(paths),
        before_failure(paths.map_values(|p: FilePath| Some(p)) + seq![None] + rest) == path_values(
            paths,
        ),
    decreases paths.len(),
{
    let some = paths.map_values(|p: FilePath| Some(p));
    let all = some + seq![None] + rest;
    if paths.len() == 0 {
        assert(all[0] is None);
        assert(path_values(paths) =~= seq![]);
    } else {
        let more = paths.drop_first();
        lemma_before_failure(more, rest);
        let some_more = more.map_values(|p: FilePath| Some(p));
        assert(some.drop_first() =~= some_more);
        assert(all.drop_first() =~= some_more + seq![None] + rest);
        assert(some[0] == Some(paths[0]));
        assert(all[0] == Some(paths[0]));
        assert(path_values(paths) =~= seq![paths[0].value()] + path_values(more));
    }
}

}
