//! The metrics: how many safe and unsafe items of each kind were found.

use vstd::prelude::*;

verus! {

/// Counts of one kind of item.
#[derive(Debug, Clone, Copy, PartialEq, Eq)]
pub struct Count {
    /// Number of safe items, in .rs files not used by the build.
    pub safe_unused: u64,
    /// Number of safe items, in .rs files used by the build.
    pub safe_used: u64,
    /// Number of unsafe items, in .rs files not used by the build.
    pub unsafe_unused: u64,
    /// Number of unsafe items, in .rs files used by the build.
    pub unsafe_used: u64,
}

/// Items of one kind, told apart by whether they are unsafe.
pub struct Split {
    pub safe_items: nat,
    pub unsafe_items: nat,
}

impl Split {
    /// No items.
    pub open spec fn none() -> Split {
        Split { safe_items: 0, unsafe_items: 0 }
    }

    /// A single item.
    pub open spec fn one(is_unsafe: bool) -> Split {
        if is_unsafe {
            Split { safe_items: 0, unsafe_items: 1 }
        } else {
            Split { safe_items: 1, unsafe_items: 0 }
        }
    }

    /// The items of both.
    pub open spec fn plus(self, other: Split) -> Split {
        Split {
            safe_items: self.safe_items + other.safe_items,
            unsafe_items: self.unsafe_items + other.unsafe_items,
        }
    }

    /// The number of items, safe or not.
    pub open spec fn total(self) -> nat {
        self.safe_items + self.unsafe_items
    }

    /// Whether the numbers of items fit into counters.
    pub open spec fn fits(self) -> bool {
        self.safe_items <= u64::MAX && self.unsafe_items <= u64::MAX
    }
}

impl Count {
    /// Nothing counted yet.
    pub open spec fn zero() -> Count {
        Count { safe_unused: 0, safe_used: 0, unsafe_unused: 0, unsafe_used: 0 }
    }

    /// Whether the items of a file still fit into the counters.
    pub open spec fn has_room(self, used_by_build: bool, s: Split) -> bool {
        if used_by_build {
            self.safe_used + s.safe_items <= u64::MAX && self.unsafe_used + s.unsafe_items
                <= u64::MAX
        } else {
            self.safe_unused + s.safe_items <= u64::MAX && self.unsafe_unused + s.unsafe_items
                <= u64::MAX
        }
    }

    /// Whether `after` is this count and, on top of it, the items of a file.
    pub open spec fn grown(self, used_by_build: bool, s: Split, after: Count) -> bool {
        if used_by_build {
            &&& after.safe_used == self.safe_used + s.safe_items
            &&& after.unsafe_used == self.unsafe_used + s.unsafe_items
            &&& after.safe_unused == self.safe_unused
            &&& after.unsafe_unused == self.unsafe_unused
        } else {
            &&& after.safe_unused == self.safe_unused + s.safe_items
            &&& after.unsafe_unused == self.unsafe_unused + s.unsafe_items
            &&& after.safe_used == self.safe_used
            &&& after.unsafe_used == self.unsafe_used
        }
    }

    /// Whether the count holds the items of files that the build uses, and those of
    /// files that it does not use.
    pub open spec fn holds(self, used: Split, unused: Split) -> bool {
        &&& self.safe_used == used.safe_items
        &&& self.unsafe_used == used.unsafe_items
        &&& self.safe_unused == unused.safe_items
        &&& self.unsafe_unused == unused.unsafe_items
    }

    /// Counts one item.
    pub fn count(&mut self, is_unsafe: bool, used_by_build: bool)
        requires
            old(self).has_room(used_by_build, Split::one(is_unsafe)),
        ensures
            old(self).grown(used_by_build, Split::one(is_unsafe), *final(self)),
    {
        match (is_unsafe, used_by_build) {
            (false, false) => self.safe_unused += 1,
            (false, true) => self.safe_used += 1,
            (true, false) => self.unsafe_unused += 1,
            (true, true) => self.unsafe_used += 1,
        }
    }
}

impl Default for Count {
    fn default() -> (c: Count)
        ensures
            c == Count::zero(),
    {
        Count { safe_unused: 0, safe_used: 0, unsafe_unused: 0, unsafe_used: 0 }
    }
}

/// Unsafe usage metrics collection.
#[derive(Debug, Clone, Copy, PartialEq, Eq)]
pub struct CounterBlock {
    pub functions: Count,
    pub exprs: Count,
    pub itemimpls: Count,
    pub itemtraits: Count,
    pub methods: Count,
}

/// The items of every kind that a piece of source code holds.
pub struct Tally {
    pub functions: Split,
    pub exprs: Split,
    pub itemimpls: Split,
    pub itemtraits: Split,
    pub methods: Split,
}

impl Tally {
    /// No items at all.
    pub open spec fn none() -> Tally {
        Tally {
            functions: Split::none(),
            exprs: Split::none(),
            itemimpls: Split::none(),
            itemtraits: Split::none(),
            methods: Split::none(),
        }
    }

    /// The items of both.
    pub open spec fn plus(self, other: Tally) -> Tally {
        Tally {
            functions: self.functions.plus(other.functions),
            exprs: self.exprs.plus(other.exprs),
            itemimpls: self.itemimpls.plus(other.itemimpls),
            itemtraits: self.itemtraits.plus(other.itemtraits),
            methods: self.methods.plus(other.methods),
        }
    }

    /// Whether the numbers of items of all kinds fit into counters.
    pub open spec fn fits(self) -> bool {
        &&& self.functions.fits()
        &&& self.exprs.fits()
        &&& self.itemimpls.fits()
        &&& self.itemtraits.fits()
        &&& self.methods.fits()
    }

    /// The number of unsafe items of all kinds.
    pub open spec fn unsafe_total(self) -> nat {
        self.functions.unsafe_items + self.exprs.unsafe_items + self.itemimpls.unsafe_items
            + self.itemtraits.unsafe_items + self.methods.unsafe_items
    }
}

impl CounterBlock {
    /// Nothing counted yet.
    pub open spec fn zero() -> CounterBlock {
        CounterBlock {
            functions: Count::zero(),
            exprs: Count::zero(),
            itemimpls: Count::zero(),
            itemtraits: Count::zero(),
            methods: Count::zero(),
        }
    }

    /// Whether the items of a file still fit into the counters.
    pub open spec fn has_room(self, used_by_build: bool, t: Tally) -> bool {
        &&& self.functions.has_room(used_by_build, t.functions)
        &&& self.exprs.has_room(used_by_build, t.exprs)
        &&& self.itemimpls.has_room(used_by_build, t.itemimpls)
        &&& self.itemtraits.has_room(used_by_build, t.itemtraits)
        &&& self.methods.has_room(used_by_build, t.methods)
    }

    /// Whether `after` is this block and, on top of it, the items of a file.
    pub open spec fn grown(self, used_by_build: bool, t: Tally, after: CounterBlock) -> bool {
        &&& self.functions.grown(used_by_build, t.functions, after.functions)
        &&& self.exprs.grown(used_by_build, t.exprs, after.exprs)
        &&& self.itemimpls.grown(used_by_build, t.itemimpls, after.itemimpls)
        &&& self.itemtraits.grown(used_by_build, t.itemtraits, after.itemtraits)
        &&& self.methods.grown(used_by_build, t.methods, after.methods)
    }

    /// Whether the block holds the items of files that the build uses, and those of
    /// files that it does not use.
    pub open spec fn holds(self, used: Tally, unused: Tally) -> bool {
        &&& self.functions.holds(used.functions, unused.functions)
        &&& self.exprs.holds(used.exprs, unused.exprs)
        &&& self.itemimpls.holds(used.itemimpls, unused.itemimpls)
        &&& self.itemtraits.holds(used.itemtraits, unused.itemtraits)
        &&& self.methods.holds(used.methods, unused.methods)
    }

    /// Whether unsafe code was found in the files that the build uses.
    pub open spec fn uses_unsafe(self) -> bool {
        ||| self.functions.unsafe_used > 0
        ||| self.exprs.unsafe_used > 0
        ||| self.itemimpls.unsafe_used > 0
        ||| self.itemtraits.unsafe_used > 0
        ||| self.methods.unsafe_used > 0
    }

    /// Whether unsafe code was found in the files that the build uses.
    pub fn has_unsafe(&self) -> (r: bool)
        ensures
            r == self.uses_unsafe(),
    {
        self.functions.unsafe_used > 0 || self.exprs.unsafe_used > 0 || self.itemimpls.unsafe_used
            > 0 || self.itemtraits.unsafe_used > 0 || self.methods.unsafe_used > 0
    }
}

impl Default for CounterBlock {
    fn default() -> (b: CounterBlock)
        ensures
            b == CounterBlock::zero(),
    {
        CounterBlock {
            functions: Count::default(),
            exprs: Count::default(),
            itemimpls: Count::default(),
            itemtraits: Count::default(),
            methods: Count::default(),
        }
    }
}

/// A number that is one too large for a counter.
const TOO_LARGE: u128 = 0x1_0000_0000_0000_0000;

/// `n`, but no more than is too large for a counter.
pub open spec fn capped(n: nat) -> nat {
    if n <= u64::MAX {
        n
    } else {
        (u64::MAX + 1) as nat
    }
}

/// The sum of two capped numbers.
fn capped_sum(a: u128, b: u128) -> (r: u128)
    requires
        a <= u64::MAX + 1,
        b <= u64::MAX + 1,
    ensures
        r <= u64::MAX + 1,
        forall|m: nat, n: nat| a == capped(m) && b == capped(n) ==> r == #[trigger] capped(m + n),
{
    if a + b < TOO_LARGE {
        a + b
    } else {
        TOO_LARGE
    }
}

/// The items of one kind, ahead of being counted: numbers that are too large for
/// a counter are not told apart.
#[derive(Clone, Copy)]
pub struct CappedSplit {
    safe_items: u128,
    unsafe_items: u128,
}

impl CappedSplit {
    /// Whether these are the items.
    pub closed spec fn stands_for(self, s: Split) -> bool {
        self.safe_items == capped(s.safe_items) && self.unsafe_items == capped(s.unsafe_items)
    }

    /// No items.
    fn none() -> (r: CappedSplit)
        ensures
            r.stands_for(Split::none()),
    {
        CappedSplit { safe_items: 0, unsafe_items: 0 }
    }

    /// A single item.
    fn one(is_unsafe: bool) -> (r: CappedSplit)
        ensures
            r.stands_for(Split::one(is_unsafe)),
    {
        if is_unsafe {
            CappedSplit { safe_items: 0, unsafe_items: 1 }
        } else {
            CappedSplit { safe_items: 1, unsafe_items: 0 }
        }
    }

    /// The items of both.
    fn plus(self, other: CappedSplit, Ghost(s): Ghost<Split>, Ghost(t): Ghost<Split>) -> (r:
        CappedSplit)
        requires
            self.stands_for(s),
            other.stands_for(t),
        ensures
            r.stands_for(s.plus(t)),
    {
        CappedSplit {
            safe_items: capped_sum(self.safe_items, other.safe_items),
            unsafe_items: capped_sum(self.unsafe_items, other.unsafe_items),
        }
    }
}

impl Count {
    /// Whether the items of a file still fit into the counters.
    fn room_for(&self, used_by_build: bool, items: CappedSplit, Ghost(s): Ghost<Split>) -> (r: bool)
        requires
            items.stands_for(s),
        ensures
            r == self.has_room(used_by_build, s),
    {
        if used_by_build {
            self.safe_used as u128 + items.safe_items < TOO_LARGE && self.unsafe_used as u128
                + items.unsafe_items < TOO_LARGE
        } else {
            self.safe_unused as u128 + items.safe_items < TOO_LARGE && self.unsafe_unused as u128
                + items.unsafe_items < TOO_LARGE
        }
    }
}

/// The items of every kind, ahead of being counted.
#[derive(Clone, Copy)]
pub struct CappedTally {
    functions: CappedSplit,
    exprs: CappedSplit,
    itemimpls: CappedSplit,
    itemtraits: CappedSplit,
    methods: CappedSplit,
}

impl CappedTally {
    /// Whether these are the items.
    pub closed spec fn stands_for(self, t: Tally) -> bool {
        &&& self.functions.stands_for(t.functions)
        &&& self.exprs.stands_for(t.exprs)
        &&& self.itemimpls.stands_for(t.itemimpls)
        &&& self.itemtraits.stands_for(t.itemtraits)
        &&& self.methods.stands_for(t.methods)
    }

    /// No items at all.
    pub(crate) fn none() -> (r: CappedTally)
        ensures
            r.stands_for(Tally::none()),
    {
        CappedTally {
            functions: CappedSplit::none(),
            exprs: CappedSplit::none(),
            itemimpls: CappedSplit::none(),
            itemtraits: CappedSplit::none(),
            methods: CappedSplit::none(),
        }
    }

    /// A single function.
    pub(crate) fn function(is_unsafe: bool) -> (r: CappedTally)
        ensures
            r.stands_for((Tally { functions: Split::one(is_unsafe), ..Tally::none() })),
    {
        let mut r = CappedTally::none();
        r.functions = CappedSplit::one(is_unsafe);
        r
    }

    /// A single expression.
    pub(crate) fn expr(is_unsafe: bool) -> (r: CappedTally)
        ensures
            r.stands_for((Tally { exprs: Split::one(is_unsafe), ..Tally::none() })),
    {
        let mut r = CappedTally::none();
        r.exprs = CappedSplit::one(is_unsafe);
        r
    }

    /// A single `impl` block.
    pub(crate) fn itemimpl(is_unsafe: bool) -> (r: CappedTally)
        ensures
            r.stands_for((Tally { itemimpls: Split::one(is_unsafe), ..Tally::none() })),
    {
        let mut r = CappedTally::none();
        r.itemimpls = CappedSplit::one(is_unsafe);
        r
    }

    /// A single trait.
    pub(crate) fn itemtrait(is_unsafe: bool) -> (r: CappedTally)
        ensures
            r.stands_for((Tally { itemtraits: Split::one(is_unsafe), ..Tally::none() })),
    {
        let mut r = CappedTally::none();
        r.itemtraits = CappedSplit::one(is_unsafe);
        r
    }

    /// A single method.
    pub(crate) fn method(is_unsafe: bool) -> (r: CappedTally)
        ensures
            r.stands_for((Tally { methods: Split::one(is_unsafe), ..Tally::none() })),
    {
        let mut r = CappedTally::none();
        r.methods = CappedSplit::one(is_unsafe);
        r
    }

    /// The items of both.
    pub(crate) fn plus(
        self,
        other: CappedTally,
        Ghost(s): Ghost<Tally>,
        Ghost(t): Ghost<Tally>,
    ) -> (r: CappedTally)
        requires
            self.stands_for(s),
            other.stands_for(t),
        ensures
            r.stands_for(s.plus(t)),
    {
        CappedTally {
            functions: self.functions.plus(
                other.functions,
                Ghost(s.functions),
                Ghost(t.functions),
            ),
            exprs: self.exprs.plus(other.exprs, Ghost(s.exprs), Ghost(t.exprs)),
            itemimpls: self.itemimpls.plus(
                other.itemimpls,
                Ghost(s.itemimpls),
                Ghost(t.itemimpls),
            ),
            itemtraits: self.itemtraits.plus(
                other.itemtraits,
                Ghost(s.itemtraits),
                Ghost(t.itemtraits),
            ),
            methods: self.methods.plus(other.methods, Ghost(s.methods), Ghost(t.methods)),
        }
    }
}

impl CounterBlock {
    /// Whether the items of a file still fit into the counters.
    pub(crate) fn room_for(
        &self,
        used_by_build: bool,
        items: CappedTally,
        Ghost(t): Ghost<Tally>,
    ) -> (r: bool)
        requires
            items.stands_for(t),
        ensures
            r == self.has_room(used_by_build, t),
    {
        self.functions.room_for(used_by_build, items.functions, Ghost(t.functions))
            && self.exprs.room_for(used_by_build, items.exprs, Ghost(t.exprs))
            && self.itemimpls.room_for(used_by_build, items.itemimpls, Ghost(t.itemimpls))
            && self.itemtraits.room_for(used_by_build, items.itemtraits, Ghost(t.itemtraits))
            && self.methods.room_for(used_by_build, items.methods, Ghost(t.methods))
    }
}

/// Law: what is counted of files used by the build and of files not used by it
/// does not depend on which was counted first.
pub proof fn lemma_used_and_unused_apart(
    start: CounterBlock,
    used: Tally,
    unused: Tally,
    a: CounterBlock,
    ab: CounterBlock,
    b: CounterBlock,
    ba: CounterBlock,
)
    requires
        start.grown(true, used, a),
        a.grown(false, unused, ab),
        start.grown(false, unused, b),
        b.grown(true, used, ba),
    ensures
        ab == ba,
{
}

/// Law: code in files that the build does not use never makes a crate count as
/// one that uses unsafe code, and unsafe code in files that it uses always does.
pub proof fn lemma_unsafe_used(
    start: CounterBlock,
    used_by_build: bool,
    t: Tally,
    after: CounterBlock,
)
    requires
        start.grown(used_by_build, t, after),
    ensures
        after.uses_unsafe() == (start.uses_unsafe() || (used_by_build && t.unsafe_total() > 0)),
{
}

/// Law: counting a file changes, of each kind, the two numbers of files used by the
/// build, or the two of files not used by it, by the numbers of its safe and of its
/// unsafe items, and leaves the other two alone.
pub proof fn lemma_count_grows(start: Count, used_by_build: bool, s: Split, after: Count)
    ensures
        start.grown(used_by_build, s, after) <==> {
            let used = |n: nat| if used_by_build { n } else { 0nat };
            let unused = |n: nat| if used_by_build { 0nat } else { n };
            &&& after.safe_used - start.safe_used == used(s.safe_items)
            &&& after.unsafe_used - start.unsafe_used == used(s.unsafe_items)
            &&& after.safe_unused - start.safe_unused == unused(s.safe_items)
            &&& after.unsafe_unused - start.unsafe_unused == unused(s.unsafe_items)
        },
        start.has_room(used_by_build, s) <==> exists|grown: Count|
            #[trigger] start.grown(used_by_build, s, grown),
{
    if start.has_room(used_by_build, s) {
        let grown = if used_by_build {
            Count {
                safe_used: (start.safe_used + s.safe_items) as u64,
                unsafe_used: (start.unsafe_used + s.unsafe_items) as u64,
                ..start
            }
        } else {
            Count {
                safe_unused: (start.safe_unused + s.safe_items) as u64,
                unsafe_unused: (start.unsafe_unused + s.unsafe_items) as u64,
                ..start
            }
        };
        assert(start.grown(used_by_build, s, grown));
    }
}

/// Law: every kind of item is counted by itself, and there is room for a file where
/// there is for each kind of its items.
pub proof fn lemma_kinds_apart(
    start: CounterBlock,
    used_by_build: bool,
    t: Tally,
    after: CounterBlock,
)
    ensures
        start.grown(used_by_build, t, after) <==> {
            &&& start.functions.grown(used_by_build, t.functions, after.functions)
            &&& start.exprs.grown(used_by_build, t.exprs, after.exprs)
            &&& start.itemimpls.grown(used_by_build, t.itemimpls, after.itemimpls)
            &&& start.itemtraits.grown(used_by_build, t.itemtraits, after.itemtraits)
            &&& start.methods.grown(used_by_build, t.methods, after.methods)
        },
        start.has_room(used_by_build, t) <==> exists|grown: CounterBlock|
            #[trigger] start.grown(used_by_build, t, grown),
{
    lemma_count_grows(start.functions, used_by_build, t.functions, after.functions);
    lemma_count_grows(start.exprs, used_by_build, t.exprs, after.exprs);
    lemma_count_grows(start.itemimpls, used_by_build, t.itemimpls, after.itemimpls);
    lemma_count_grows(start.itemtraits, used_by_build, t.itemtraits, after.itemtraits);
    lemma_count_grows(start.methods, used_by_build, t.methods, after.methods);
    if start.has_room(used_by_build, t) {
        let grown = CounterBlock {
            functions: choose|g: Count|
                #[trigger] start.functions.grown(used_by_build, t.functions, g),
            exprs: choose|g: Count| #[trigger] start.exprs.grown(used_by_build, t.exprs, g),
            itemimpls: choose|g: Count|
                #[trigger] start.itemimpls.grown(used_by_build, t.itemimpls, g),
            itemtraits: choose|g: Count|
                #[trigger] start.itemtraits.grown(used_by_build, t.itemtraits, g),
            methods: choose|g: Count| #[trigger] start.methods.grown(used_by_build, t.methods, g),
        };
        assert(start.grown(used_by_build, t, grown));
    }
}

/// Law: counters hold the items of files used by the build, and those of files not
/// used by it, where they come from nothing by counting both.
pub proof fn lemma_holds_what_was_counted(
    used: Tally,
    unused: Tally,
    between: CounterBlock,
    counters: CounterBlock,
)
    requires
        CounterBlock::zero().grown(true, used, between),
    ensures
        counters.holds(used, unused) <==> between.grown(false, unused, counters),
{
}

/// Law: nothing counted is no item of any kind, safe or unsafe, used or unused, and a
/// single item is one item, unsafe or not.
pub proof fn lemma_nothing_and_one(is_unsafe: bool)
    ensures
        Count::zero() == (Count { safe_unused: 0, safe_used: 0, unsafe_unused: 0, unsafe_used: 0 }),
        CounterBlock::zero().functions == Count::zero(),
        CounterBlock::zero().exprs == Count::zero(),
        CounterBlock::zero().itemimpls == Count::zero(),
        CounterBlock::zero().itemtraits == Count::zero(),
        CounterBlock::zero().methods == Count::zero(),
        Split::one(is_unsafe).total() == 1,
        Split::one(is_unsafe).unsafe_items == if is_unsafe { 1nat } else { 0nat },
        Split::one(is_unsafe).total() == Split::one(is_unsafe).safe_items + Split::one(
            is_unsafe,
        ).unsafe_items,
{
}

/// Law: a crate uses unsafe code where, of some kind, there is an unsafe item in a
/// file that the build uses; what stands in other files has no bearing on it.
pub proof fn lemma_uses_unsafe(b: CounterBlock)
    ensures
        !b.uses_unsafe() <==> b.functions.unsafe_used + b.exprs.unsafe_used
            + b.itemimpls.unsafe_used + b.itemtraits.unsafe_used + b.methods.unsafe_used == 0,
{
}

/// Law: tallies are added kind by kind, safe items to safe ones and unsafe items to
/// unsafe ones; no items change nothing; and a tally fits where each number does.
pub proof fn lemma_tallies_add(a: Tally, b: Tally, x: Split, y: Split)
    ensures
        x.plus(y).safe_items == x.safe_items + y.safe_items,
        x.plus(y).unsafe_items == x.unsafe_items + y.unsafe_items,
        x.plus(y).total() == x.safe_items + x.unsafe_items + y.safe_items + y.unsafe_items,
        a.plus(b).functions == a.functions.plus(b.functions),
        a.plus(b).exprs == a.exprs.plus(b.exprs),
        a.plus(b).itemimpls == a.itemimpls.plus(b.itemimpls),
        a.plus(b).itemtraits == a.itemtraits.plus(b.itemtraits),
        a.plus(b).methods == a.methods.plus(b.methods),
        a.plus(Tally::none()) == a,
        Tally::none().plus(a) == a,
        x.fits() <==> x.safe_items <= u64::MAX && x.unsafe_items <= u64::MAX,
        a.fits() <==> a.functions.fits() && a.exprs.fits() && a.itemimpls.fits()
            && a.itemtraits.fits() && a.methods.fits(),
        a.unsafe_total() == a.functions.unsafe_items + a.exprs.unsafe_items
            + a.itemimpls.unsafe_items + a.itemtraits.unsafe_items + a.methods.unsafe_items,
{
}

}
