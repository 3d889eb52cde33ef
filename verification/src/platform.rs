//! The platforms that dependencies are limited to, and the settings of the
//! compiler that decide whether a platform matches.

use std::str::FromStr;
use vstd::prelude::*;

use crate::text::{lines_of, same_text};
#[allow(unused_imports)]
use crate::text::{lines, texts};

verus! {

broadcast use vstd::string::group_string_axioms;

/// A setting of the compiler.
#[derive(Debug)]
pub enum Cfg {
    /// A name, like `unix`.
    Name(String),
    /// A key with a value, like `target_os = "linux"`.
    KeyPair(String, String),
}

/// The value of a [`Cfg`].
pub enum CfgView {
    Name(Seq<char>),
    KeyPair(Seq<char>, Seq<char>),
}

/// A condition on the settings.
#[derive(Debug)]
pub enum CfgExpr {
    Not(Box<CfgExpr>),
    All(Vec<CfgExpr>),
    Any(Vec<CfgExpr>),
    Value(Cfg),
}

/// What a dependency is limited to.
#[derive(Debug)]
pub enum Platform {
    /// A target, like `x86_64-apple-darwin`.
    Name(String),
    /// The targets whose settings meet a condition, like `cfg(windows)`.
    Cfg(CfgExpr),
}

impl Cfg {
    pub open spec fn value(self) -> CfgView {
        match self {
            Cfg::Name(n) => CfgView::Name(n@),
            Cfg::KeyPair(k, v) => CfgView::KeyPair(k@, v@),
        }
    }

    /// A setting with the same value.
    pub fn copy(&self) -> (r: Cfg)
        ensures
            r.value() == self.value(),
    {
        match self {
            Cfg::Name(n) => Cfg::Name(n.clone()),
            Cfg::KeyPair(k, v) => Cfg::KeyPair(k.clone(), v.clone()),
        }
    }

    /// Whether two settings are the same.
    pub fn same(&self, other: &Cfg) -> (r: bool)
        ensures
            r == (self.value() == other.value()),
    {
        match (self, other) {
            (Cfg::Name(a), Cfg::Name(b)) => same_text(a.as_str(), b.as_str()),
            (Cfg::KeyPair(a, v), Cfg::KeyPair(b, w)) => same_text(a.as_str(), b.as_str())
                && same_text(v.as_str(), w.as_str()),
            _ => false,
        }
    }
}

/// The values of settings.
pub open spec fn cfg_values(cfgs: Seq<Cfg>) -> Seq<CfgView> {
    cfgs.map_values(|c: Cfg| c.value())
}

impl CfgExpr {
    /// Whether the condition is met where exactly the given settings are made.
    pub open spec fn holds(self, cfgs: Seq<CfgView>) -> bool
        decreases self,
    {
        match self {
            CfgExpr::Not(e) => !e.holds(cfgs),
            CfgExpr::All(es) => all_hold(es@, cfgs),
            CfgExpr::Any(es) => any_holds(es@, cfgs),
            CfgExpr::Value(c) => cfgs.contains(c.value()),
        }
    }

    /// Whether the condition is met where exactly the given settings are made.
    pub fn matches(&self, cfgs: &Vec<Cfg>) -> (r: bool)
        ensures
            r == self.holds(cfg_values(cfgs@)),
        decreases self,
    {
        match self {
            CfgExpr::Not(e) => !e.matches(cfgs),
            CfgExpr::All(es) => all_match(es, cfgs),
            CfgExpr::Any(es) => any_matches(es, cfgs),
            CfgExpr::Value(c) => {
                let mut i: usize = 0;
                while i < cfgs.len()
                    invariant
                        i <= cfgs.len(),
                        *self == CfgExpr::Value(*c),
                        forall|j: int| 0 <= j < i ==> cfg_values(cfgs@)[j] != c.value(),
                    decreases cfgs.len() - i,
                {
                    if cfgs[i].same(c) {
                        assert(cfg_values(cfgs@)[i as int] == c.value());
                        return true;
                    }
                    i += 1;
                }
                false
            },
        }
    }
}

/// Whether all of the conditions are met.
pub open spec fn all_hold(es: Seq<CfgExpr>, cfgs: Seq<CfgView>) -> bool
    decreases es,
{
    if es.len() == 0 {
        true
    } else {
        all_hold(es.drop_last(), cfgs) && es.last().holds(cfgs)
    }
}

/// Whether one of the conditions is met.
pub open spec fn any_holds(es: Seq<CfgExpr>, cfgs: Seq<CfgView>) -> bool
    decreases es,
{
    if es.len() == 0 {
        false
    } else {
        any_holds(es.drop_last(), cfgs) || es.last().holds(cfgs)
    }
}

/// Whether all of the conditions are met.
fn all_match(es: &Vec<CfgExpr>, cfgs: &Vec<Cfg>) -> (r: bool)
    ensures
        r == all_hold(es@, cfg_values(cfgs@)),
    decreases es,
{
    let mut i: usize = 0;
    while i < es.len()
        invariant
            i <= es.len(),
            all_hold(es@.take(i as int), cfg_values(cfgs@)),
        decreases es.len() - i,
    {
        proof {
            lemma_all_hold(es@, cfg_values(cfgs@));
            assert(es@.take(i + 1).drop_last() =~= es@.take(i as int));
        }
        if !es[i].matches(cfgs) {
            return false;
        }
        i += 1;
    }
    assert(es@.take(i as int) =~= es@);
    true
}

/// Whether one of the conditions is met.
fn any_matches(es: &Vec<CfgExpr>, cfgs: &Vec<Cfg>) -> (r: bool)
    ensures
        r == any_holds(es@, cfg_values(cfgs@)),
    decreases es,
{
    let mut i: usize = 0;
    while i < es.len()
        invariant
            i <= es.len(),
            !any_holds(es@.take(i as int), cfg_values(cfgs@)),
        decreases es.len() - i,
    {
        proof {
            lemma_any_holds(es@, cfg_values(cfgs@));
            assert(es@.take(i + 1).drop_last() =~= es@.take(i as int));
        }
        if es[i].matches(cfgs) {
            return true;
        }
        i += 1;
    }
    assert(es@.take(i as int) =~= es@);
    false
}

/// All of the conditions are met where each is.
pub proof fn lemma_all_hold(es: Seq<CfgExpr>, cfgs: Seq<CfgView>)
    ensures
        all_hold(es, cfgs) <==> forall|i: int| 0 <= i < es.len() ==> (#[trigger] es[i]).holds(cfgs),
    decreases es.len(),
{
    if es.len() > 0 {
        let rest = es.drop_last();
        lemma_all_hold(rest, cfgs);
        if all_hold(es, cfgs) {
            assert forall|i: int| 0 <= i < es.len() implies (#[trigger] es[i]).holds(cfgs) by {
                if i < rest.len() {
                    assert(rest[i] == es[i]);
                }
            }
        } else if all_hold(rest, cfgs) {
            assert(!es[es.len() - 1].holds(cfgs));
        } else {
            let i = choose|i: int| 0 <= i < rest.len() && !(#[trigger] rest[i]).holds(cfgs);
            assert(!es[i].holds(cfgs));
        }
    }
}

/// One of the conditions is met where there is one that is.
pub proof fn lemma_any_holds(es: Seq<CfgExpr>, cfgs: Seq<CfgView>)
    ensures
        any_holds(es, cfgs) <==> exists|i: int|
            0 <= i < es.len() && (#[trigger] es[i]).holds(cfgs),
    decreases es.len(),
{
    if es.len() > 0 {
        let rest = es.drop_last();
        lemma_any_holds(rest, cfgs);
        if any_holds(rest, cfgs) {
            let i = choose|i: int| 0 <= i < rest.len() && (#[trigger] rest[i]).holds(cfgs);
            assert(es[i].holds(cfgs));
        } else if any_holds(es, cfgs) {
            assert(es[es.len() - 1].holds(cfgs));
        } else {
            assert forall|i: int| 0 <= i < es.len() implies !(#[trigger] es[i]).holds(cfgs) by {
                if i < rest.len() {
                    assert(rest[i] == es[i]);
                }
            }
        }
    }
}

impl Platform {
    /// Whether the platform is the given target, or its condition is met by the
    /// settings; where the settings are not known, no condition is met.
    pub open spec fn met(self, target: Seq<char>, cfgs: Option<Seq<CfgView>>) -> bool {
        match self {
            Platform::Name(n) => n@ == target,
            Platform::Cfg(e) => match cfgs {
                Some(cfgs) => e.holds(cfgs),
                None => false,
            },
        }
    }

    /// Whether the platform matches a target with the given settings.
    pub fn matches(&self, target: &str, cfgs: &Option<Vec<Cfg>>) -> (r: bool)
        ensures
            r == self.met(target@, known_cfgs(*cfgs)),
    {
        match self {
            Platform::Name(n) => same_text(n.as_str(), target),
            Platform::Cfg(e) => match cfgs {
                Some(cfgs) => e.matches(cfgs),
                None => false,
            },
        }
    }
}

/// The values of settings, where they are known.
pub open spec fn known_cfgs(cfgs: Option<Vec<Cfg>>) -> Option<Seq<CfgView>> {
    match cfgs {
        Some(cfgs) => Some(cfg_values(cfgs@)),
        None => None,
    }
}

/// What `Cfg::from_str` of the crate `cargo_platform` reads from a line: a
/// setting, or the text of the error.
pub uninterp spec fn parsed_cfg(line: Seq<char>) -> Result<CfgView, Seq<char>>;

/// The value of a setting that was read, or of the error.
pub open spec fn cfg_result(r: Result<Cfg, String>) -> Result<CfgView, Seq<char>> {
    match r {
        Ok(c) => Ok(c.value()),
        Err(e) => Err(e@),
    }
}

/// `cargo_platform::Cfg::from_str`: the setting that a line spells, or the text
/// of the error where it spells none. Which lines spell a setting is not stated
/// here; it depends on the line alone.
#[verifier::external_body]
fn read_cfg(line: &str) -> (r: Result<Cfg, String>)
    ensures
        cfg_result(r) == parsed_cfg(line@),
{
    match cargo_platform::Cfg::from_str(line) {
        Ok(cargo_platform::Cfg::Name(n)) => Ok(Cfg::Name(n)),
        Ok(cargo_platform::Cfg::KeyPair(k, v)) => Ok(Cfg::KeyPair(k, v)),
        Err(e) => Err(e.to_string()),
    }
}

/// The values of settings that were read.
pub open spec fn cfg_results(read: Seq<Result<Cfg, String>>) -> Seq<Result<CfgView, Seq<char>>> {
    read.map_values(|r: Result<Cfg, String>| cfg_result(r))
}

/// Whether `r` is what reading settings comes to: all of them, or the first
/// error.
pub open spec fn collected(
    read: Seq<Result<CfgView, Seq<char>>>,
    r: Result<Seq<CfgView>, Seq<char>>,
) -> bool {
    match r {
        Ok(cfgs) => {
            &&& cfgs.len() == read.len()
            &&& forall|i: int| 0 <= i < read.len() ==> #[trigger] read[i] == Ok::<
                CfgView,
                Seq<char>,
            >(cfgs[i])
        },
        Err(e) => exists|n: int|
            {
                &&& 0 <= n < read.len()
                &&& #[trigger] read[n] == Err::<CfgView, Seq<char>>(e)
                &&& forall|i: int| 0 <= i < n ==> (#[trigger] read[i]) is Ok
            },
    }
}

/// The settings that were read, or the first error among them.
pub fn collect_cfgs(read: &Vec<Result<Cfg, String>>) -> (r: Result<Vec<Cfg>, String>)
    ensures
        collected(cfg_results(read@), cfgs_result(r)),
{
    let ghost all = cfg_results(read@);
    let mut cfgs: Vec<Cfg> = Vec::new();
    let mut i: usize = 0;
    while i < read.len()
        invariant
            i <= read.len(),
            all == cfg_results(read@),
            cfgs.len() == i,
            forall|j: int|
                0 <= j < i ==> #[trigger] all[j] == Ok::<CfgView, Seq<char>>(
                    cfg_values(cfgs@)[j],
                ),
        decreases read.len() - i,
    {
        assert(all[i as int] == cfg_result(read@[i as int]));
        match &read[i] {
            Ok(c) => {
                let ghost before = cfg_values(cfgs@);
                cfgs.push(c.copy());
                assert(cfg_values(cfgs@) =~= before.push(c.value()));
            },
            Err(e) => {
                return Err(e.clone());
            },
        }
        i += 1;
    }
    Ok(cfgs)
}

/// The value of settings, or of an error.
pub open spec fn cfgs_result(r: Result<Vec<Cfg>, String>) -> Result<Seq<CfgView>, Seq<char>> {
    match r {
        Ok(cfgs) => Ok(cfg_values(cfgs@)),
        Err(e) => Err(e@),
    }
}

/// What the lines of a text read as.
pub open spec fn parsed_cfgs(ls: Seq<Seq<char>>) -> Seq<Result<CfgView, Seq<char>>> {
    ls.map_values(|l: Seq<char>| parsed_cfg(l))
}

/// Reads the settings that the compiler has printed, one in each line. Where it
/// could not be asked, there is nothing printed and no settings are known.
pub fn get_cfgs(printed: Option<&str>) -> (r: Result<Option<Vec<Cfg>>, String>)
    ensures
        match printed {
            None => r == Ok::<Option<Vec<Cfg>>, String>(None),
            Some(text) => collected(
                parsed_cfgs(lines(text@)),
                match r {
                    Ok(cfgs) => Ok(cfg_values(cfgs->0@)),
                    Err(e) => Err(e@),
                },
            ) && (r matches Ok(cfgs) ==> cfgs is Some),
        },
{
    match printed {
        None => Ok(None),
        Some(text) => {
            let ls = lines_of(text);
            let mut read: Vec<Result<Cfg, String>> = Vec::new();
            let mut i: usize = 0;
            assert(cfg_results(read@) =~= parsed_cfgs(texts(ls@).take(0)));
            while i < ls.len()
                invariant
                    i <= ls.len(),
                    cfg_results(read@) == parsed_cfgs(texts(ls@).take(i as int)),
                decreases ls.len() - i,
            {
                let ghost before = cfg_results(read@);
                read.push(read_cfg(ls[i].as_str()));
                proof {
                    let line = texts(ls@)[i as int];
                    assert(cfg_results(read@) =~= before.push(parsed_cfg(line)));
                    assert(texts(ls@).take(i + 1) =~= texts(ls@).take(i as int).push(line));
                    assert(parsed_cfgs(texts(ls@).take(i + 1)) =~= before.push(parsed_cfg(line)));
                }
                i += 1;
            }
            assert(texts(ls@).take(i as int) =~= lines(text@));
            match collect_cfgs(&read) {
                Ok(cfgs) => Ok(Some(cfgs)),
                Err(e) => Err(e),
            }
        },
    }
}

/// Law: a setting is met where it is among the settings made, `not` where its
/// condition is not met, `all` where each of its conditions is met, so also where it
/// has none, and `any` where one of its conditions is met.
pub proof fn lemma_conditions(c: Cfg, e: CfgExpr, es: Vec<CfgExpr>, cfgs: Seq<CfgView>)
    ensures
        CfgExpr::Value(c).holds(cfgs) <==> exists|i: int|
            0 <= i < cfgs.len() && #[trigger] cfgs[i] == c.value(),
        CfgExpr::Not(Box::new(e)).holds(cfgs) <==> !e.holds(cfgs),
        CfgExpr::All(es).holds(cfgs) <==> forall|i: int|
            0 <= i < es@.len() ==> (#[trigger] es@[i]).holds(cfgs),
        CfgExpr::Any(es).holds(cfgs) <==> exists|i: int|
            0 <= i < es@.len() && (#[trigger] es@[i]).holds(cfgs),
{
    lemma_all_hold(es@, cfgs);
    lemma_any_holds(es@, cfgs);
}

/// Law: a platform that is named is met by that target alone, whatever the settings. A
/// platform with a condition is met by the settings alone, whatever the target, and not
/// where they are not known.
pub proof fn lemma_platform_met(
    name: String,
    e: CfgExpr,
    target: Seq<char>,
    other: Seq<char>,
    cfgs: Seq<CfgView>,
    known: Option<Seq<CfgView>>,
)
    ensures
        Platform::Name(name).met(target, known) <==> target == name@,
        Platform::Cfg(e).met(target, Some(cfgs)) <==> e.holds(cfgs),
        Platform::Cfg(e).met(target, known) == Platform::Cfg(e).met(other, known),
        !Platform::Cfg(e).met(target, None),
{
}

/// Law: settings that were read are all there, in their order, where each could be
/// read; otherwise the first error is there, and nothing but it.
pub proof fn lemma_collected(
    read: Seq<Result<CfgView, Seq<char>>>,
    r: Result<Seq<CfgView>, Seq<char>>,
    other: Result<Seq<CfgView>, Seq<char>>,
)
    requires
        collected(read, r),
    ensures
        r is Ok <==> forall|i: int| 0 <= i < read.len() ==> (#[trigger] read[i]) is Ok,
        r matches Ok(cfgs) ==> read =~= cfgs.map_values(|c: CfgView| Ok::<CfgView, Seq<char>>(c)),
        forall|n: int|
            0 <= n < read.len() && (forall|i: int| 0 <= i < n ==> (#[trigger] read[i]) is Ok)
                && (#[trigger] read[n]) is Err ==> r == Err::<Seq<CfgView>, Seq<char>>(
                read[n]->Err_0,
            ),
        collected(read, other) ==> other == r,
{
    match r {
        Ok(cfgs) => {
            assert forall|i: int| 0 <= i < read.len() implies (#[trigger] read[i]) is Ok by {
                assert(read[i] == Ok::<CfgView, Seq<char>>(cfgs[i]));
            }
            if collected(read, other) {
                match other {
                    Ok(o) => {
                        assert forall|i: int| 0 <= i < cfgs.len() implies cfgs[i] == o[i] by {
                            assert(read[i] == Ok::<CfgView, Seq<char>>(o[i]));
                        }
                        assert(cfgs =~= o);
                    },
                    Err(e) => {},
                }
            }
        },
        Err(e) => {
            let n = choose|n: int|
                {
                    &&& 0 <= n < read.len()
                    &&& #[trigger] read[n] == Err::<CfgView, Seq<char>>(e)
                    &&& forall|i: int| 0 <= i < n ==> (#[trigger] read[i]) is Ok
                };
            assert(!(read[n] is Ok));
            assert forall|m: int|
                0 <= m < read.len() && (forall|i: int| 0 <= i < m ==> (#[trigger] read[i]) is Ok)
                    && (#[trigger] read[m]) is Err implies m == n by {
                if n < m {
                    assert(read[n] is Ok);
                }
                if m < n {
                    assert(read[m] is Ok);
                }
            }
        },
    }
}

/// Law: settings show one for each, in order, names told apart from pairs; what is not
/// known shows as not known.
pub proof fn lemma_cfg_values(a: Seq<Cfg>, b: Seq<Cfg>, c: Cfg, known: Option<Vec<Cfg>>)
    ensures
        cfg_values(a + b) == cfg_values(a) + cfg_values(b),
        cfg_values(seq![c]) == seq![
            match c {
                Cfg::Name(n) => CfgView::Name(n@),
                Cfg::KeyPair(k, v) => CfgView::KeyPair(k@, v@),
            },
        ],
        known_cfgs(known) is Some <==> known is Some,
        known matches Some(cfgs) ==> known_cfgs(known) == Some(cfg_values(cfgs@)),
{
    assert(cfg_values(a + b) =~= cfg_values(a) + cfg_values(b));
    assert(cfg_values(seq![c]) =~= seq![c.value()]);
}

}
