//! Allocation of the bits of fixed ranges to the nodes that use them.
//!
//! A fixed range is read/written as one block; subranges, integers, byte arrays
//! etc. claim consecutive parts of it.  A range can also be used from inside enum
//! variants: the range is then split by the enum, each variant gets its own copy
//! of what was left of it and claims consecutive parts of that copy.  Inside a
//! variant the copy can in turn be split by a nested enum, level by level.
use vstd::prelude::*;
use crate::bvec::{BVec, spec_add, spec_sub, spec_gt, sub_defined};
use crate::error::SchemaError;

verus! {

/// A contiguous part of a range: its start relative to the range's serial
/// segment, and how much of it is still unclaimed.
#[derive(PartialEq, Eq, Structural, Clone, Copy, Debug)]
pub struct RangeAllocSingle {
    pub start: BVec,
    pub avail: BVec,
}

/// Who has claimed parts of a range so far.
pub enum RangeAlloc {
    /// Nobody yet.
    Unset(RangeAllocSingle),
    /// Nodes of one scope (by index).
    Local(usize, RangeAllocSingle),
    /// Split by an enum (by type name): each variant of it has its own level,
    /// starting from the kept copy.
    Enum(String, RangeAllocSingle),
}


/// The escape path from a scope to the scope of the range it uses: for each
/// enum level, outermost first, the enum's type name and the variant's name.
pub type Ancestry = Vec<(String, String)>;

/// The allocation state of all ranges of a schema.
pub struct Ranges {
    /// Allocation of each range (its outermost level).
    pub allocs: Vec<RangeAlloc>,
    /// The fixed range node each range is part of.
    pub serial: Vec<usize>,
    /// The levels of ranges inside enum variants: the range, the path of (enum
    /// type name, variant name) from the outermost enum, and the state there.
    pub levels: Vec<(usize, Vec<(String, String)>, RangeAlloc)>,
}

/// Room for arithmetic on a part: its ends stay well inside `usize`.
pub open spec fn single_wf(a: RangeAllocSingle) -> bool {
    &&& a.start.bits < 8
    &&& a.avail.bits <= 8
    &&& a.start.total() + a.avail.total() <= 8 * (usize::MAX - 2)
}

pub open spec fn alloc_single(a: RangeAlloc) -> RangeAllocSingle {
    match a {
        RangeAlloc::Unset(s) => s,
        RangeAlloc::Local(_, s) => s,
        RangeAlloc::Enum(_, s) => s,
    }
}

/// Claiming `using` from the front of a part: what the claimer gets.
pub open spec fn spec_take_front(a: RangeAllocSingle, using: BVec) -> RangeAllocSingle {
    RangeAllocSingle { start: a.start, avail: using }
}

/// Claiming `using` from the front of a part: what remains.
pub open spec fn spec_rest(a: RangeAllocSingle, using: BVec) -> RangeAllocSingle {
    RangeAllocSingle { start: spec_add(a.start, using), avail: spec_sub(a.avail, using) }
}

/// The names along a path, as text.
pub open spec fn path_view(p: Seq<(String, String)>) -> Seq<(Seq<char>, Seq<char>)> {
    p.map_values(|x: (String, String)| (x.0@, x.1@))
}

/// The first level at or after `i` of range `r` at path `key`, or -1.
pub open spec fn find_level(
    levels: Seq<(usize, Vec<(String, String)>, RangeAlloc)>,
    r: int,
    key: Seq<(Seq<char>, Seq<char>)>,
    i: int,
) -> int
    decreases levels.len() - i,
{
    if i < 0 || i >= levels.len() {
        -1
    } else if levels[i].0 == r && path_view(levels[i].1@) == key {
        i
    } else {
        find_level(levels, r, key, i + 1)
    }
}

/// The state of range `r` at path `key`, if that level exists.
pub open spec fn level_at(
    levels: Seq<(usize, Vec<(String, String)>, RangeAlloc)>,
    r: int,
    key: Seq<(Seq<char>, Seq<char>)>,
) -> Option<RangeAlloc> {
    let i = find_level(levels, r, key, 0);
    if 0 <= i < levels.len() {
        Some(levels[i].2)
    } else {
        None
    }
}

/// The levels after the level of range `r` at `path` is set to `st`.
pub open spec fn set_level(
    levels: Seq<(usize, Vec<(String, String)>, RangeAlloc)>,
    r: usize,
    path: Vec<(String, String)>,
    st: RangeAlloc,
) -> Seq<(usize, Vec<(String, String)>, RangeAlloc)> {
    let i = find_level(levels, r as int, path_view(path@), 0);
    if 0 <= i < levels.len() {
        levels.update(i, (r, path, st))
    } else {
        levels.push((r, path, st))
    }
}

/// A level split by enum `name`: an unused level keeps its part as the copy each
/// variant starts from; a level already split stays as it is.
pub open spec fn enum_of(st: RangeAlloc, name: String) -> RangeAlloc {
    match st {
        RangeAlloc::Unset(a) => RangeAlloc::Enum(name, a),
        other => other,
    }
}

/// The level a scope claimed from, leaving `rest`: it becomes (or stays) that
/// scope's.
pub open spec fn local_of(st: RangeAlloc, scope: usize, rest: RangeAllocSingle) -> RangeAlloc {
    match st {
        RangeAlloc::Local(s, _) => RangeAlloc::Local(s, rest),
        _ => RangeAlloc::Local(scope, rest),
    }
}

proof fn lemma_find_level_bounds(
    levels: Seq<(usize, Vec<(String, String)>, RangeAlloc)>,
    r: int,
    key: Seq<(Seq<char>, Seq<char>)>,
    i: int,
)
    requires
        0 <= i,
    ensures
        find_level(levels, r, key, i) == -1 || (i <= find_level(levels, r, key, i) < levels.len()
            && levels[find_level(levels, r, key, i)].0 == r && path_view(
            levels[find_level(levels, r, key, i)].1@,
        ) == key),
    decreases levels.len() - i,
{
    if i < levels.len() && !(levels[i].0 == r && path_view(levels[i].1@) == key) {
        lemma_find_level_bounds(levels, r, key, i + 1);
    }
}

proof fn lemma_find_level_set_other(
    levels: Seq<(usize, Vec<(String, String)>, RangeAlloc)>,
    r: usize,
    path: Vec<(String, String)>,
    st: RangeAlloc,
    r2: int,
    key: Seq<(Seq<char>, Seq<char>)>,
    j: int,
)
    requires
        0 <= j <= levels.len(),
        !(r2 == r && key == path_view(path@)),
    ensures
        find_level(set_level(levels, r, path, st), r2, key, j) == find_level(levels, r2, key, j),
    decreases levels.len() - j,
{
    let i = find_level(levels, r as int, path_view(path@), 0);
    lemma_find_level_bounds(levels, r as int, path_view(path@), 0);
    let out = set_level(levels, r, path, st);
    if j < levels.len() {
        if j == i {
            assert(out[j] == (r, path, st));
        } else {
            assert(out[j] == levels[j]);
        }
        lemma_find_level_set_other(levels, r, path, st, r2, key, j + 1);
    } else if !(0 <= i < levels.len()) {
        assert(out[j] == (r, path, st));
        assert(find_level(out, r2, key, j + 1) == -1);
    }
}

proof fn lemma_find_level_set_same(
    levels: Seq<(usize, Vec<(String, String)>, RangeAlloc)>,
    r: usize,
    path: Vec<(String, String)>,
    st: RangeAlloc,
    j: int,
)
    requires
        0 <= j <= levels.len(),
        find_level(levels, r as int, path_view(path@), 0) == find_level(levels, r as int, path_view(path@), j),
        find_level(levels, r as int, path_view(path@), 0) == -1 || j <= find_level(levels, r as int, path_view(path@), 0),
    ensures
        ({
            let i = find_level(levels, r as int, path_view(path@), 0);
            find_level(set_level(levels, r, path, st), r as int, path_view(path@), j) == if 0 <= i < levels.len() {
                i
            } else {
                levels.len() as int
            }
        }),
    decreases levels.len() - j,
{
    let i = find_level(levels, r as int, path_view(path@), 0);
    lemma_find_level_bounds(levels, r as int, path_view(path@), 0);
    let out = set_level(levels, r, path, st);
    if j < levels.len() {
        if j == i {
            assert(out[j] == (r, path, st));
        } else {
            assert(out[j] == levels[j]);
            lemma_find_level_set_same(levels, r, path, st, j + 1);
        }
    } else {
        assert(out[j] == (r, path, st));
    }
}

/// Setting one level leaves every other level as it was.
pub proof fn lemma_level_at_set(
    levels: Seq<(usize, Vec<(String, String)>, RangeAlloc)>,
    r: usize,
    path: Vec<(String, String)>,
    st: RangeAlloc,
    r2: int,
    key: Seq<(Seq<char>, Seq<char>)>,
)
    ensures
        level_at(set_level(levels, r, path, st), r2, key) == if r2 == r && key == path_view(path@) {
            Some(st)
        } else {
            level_at(levels, r2, key)
        },
{
    lemma_find_level_bounds(levels, r as int, path_view(path@), 0);
    let i = find_level(levels, r as int, path_view(path@), 0);
    let out = set_level(levels, r, path, st);
    if r2 == r && key == path_view(path@) {
        lemma_find_level_set_same(levels, r, path, st, 0);
        if 0 <= i < levels.len() {
            assert(out[i] == (r, path, st));
        } else {
            assert(out[levels.len() as int] == (r, path, st));
        }
    } else {
        lemma_find_level_set_other(levels, r, path, st, r2, key, 0);
        lemma_find_level_bounds(levels, r2, key, 0);
        let k = find_level(levels, r2, key, 0);
        if 0 <= k < levels.len() {
            assert(k != i);
            assert(out[k] == levels[k]);
        }
    }
}

impl Ranges {
    pub open spec fn wf(&self) -> bool {
        &&& self.allocs.len() == self.serial.len()
        &&& forall|i: int| 0 <= i < self.allocs.len() ==> single_wf(alloc_single(#[trigger] self.allocs[i]))
        &&& forall|i: int| 0 <= i < self.levels.len() ==> single_wf(alloc_single((#[trigger] self.levels[i]).2))
    }

    /// No range has been made.
    pub open spec fn is_empty(&self) -> bool {
        &&& self.allocs.len() == 0
        &&& self.serial.len() == 0
        &&& self.levels.len() == 0
    }

    pub fn new() -> (out: Ranges)
        ensures
            out.wf(),
            out.is_empty(),
    {
        Ranges { allocs: Vec::new(), serial: Vec::new(), levels: Vec::new() }
    }

    /// A fresh range over the whole of fixed range node `serial`.
    pub fn new_range(&mut self, serial: usize, bytes: usize) -> (out: usize)
        requires
            old(self).wf(),
            bytes + 2 <= usize::MAX,
        ensures
            final(self).wf(),
            out == old(self).allocs.len(),
            final(self).allocs@ == old(self).allocs@.push(
                RangeAlloc::Unset(RangeAllocSingle { start: BVec { bytes: 0, bits: 0 }, avail: BVec { bytes, bits: 0 } }),
            ),
            final(self).serial@ == old(self).serial@.push(serial),
            final(self).levels@ == old(self).levels@,
    {
        let out = self.allocs.len();
        self.allocs.push(
            RangeAlloc::Unset(RangeAllocSingle { start: BVec::zero(), avail: BVec::bytes(bytes) }),
        );
        self.serial.push(serial);
        out
    }

    /// The state of range `r` at depth `k` of the path `anc`, as a scope
    /// escaping through `anc` finds it, or why it may not go there: an unused
    /// level is copied to the variant below it; a level used by a scope, or
    /// split by another enum than the one at that depth, can't be entered.
    pub open spec fn eff_state(&self, r: int, anc: Seq<(String, String)>, k: nat) -> Result<RangeAlloc, SchemaError>
        decreases k,
    {
        if k == 0 {
            Ok(self.allocs@[r])
        } else {
            match self.eff_state(r, anc, (k - 1) as nat) {
                Err(e) => Err(e),
                Ok(RangeAlloc::Unset(a)) => Ok(RangeAlloc::Unset(a)),
                Ok(RangeAlloc::Local(_, _)) => Err(SchemaError::RangeUsedElsewhere),
                Ok(RangeAlloc::Enum(name, t)) => if name@ != anc[k - 1].0@ {
                    Err(SchemaError::RangeUsedByOtherEnum)
                } else {
                    match level_at(self.levels@, r, path_view(anc.take(k as int))) {
                        Some(st) => Ok(st),
                        None => Ok(RangeAlloc::Unset(t)),
                    }
                },
            }
        }
    }

    /// Which part of range `r` a scope escaping through `ancestry` may claim
    /// from, or why it may not: the state at the end of the path, which must
    /// not be split by an enum itself.
    pub open spec fn spec_check(&self, r: int, ancestry: Seq<(String, String)>) -> Result<
        RangeAllocSingle,
        SchemaError,
    > {
        match self.eff_state(r, ancestry, ancestry.len()) {
            Err(e) => Err(e),
            Ok(RangeAlloc::Enum(_, _)) => Err(SchemaError::RangeUsedElsewhere),
            Ok(st) => Ok(alloc_single(st)),
        }
    }

    /// The state a level of range `r` is left in by a claim through `anc` that
    /// leaves `rest`: the levels above the end are split by their enums, the end
    /// becomes the claiming scope's.
    pub open spec fn state_after(
        &self,
        r: int,
        anc: Seq<(String, String)>,
        k: nat,
        scope: usize,
        rest: RangeAllocSingle,
    ) -> RangeAlloc {
        let st = self.eff_state(r, anc, k)->Ok_0;
        if k == anc.len() {
            local_of(st, scope, rest)
        } else {
            enum_of(st, anc[k as int].0)
        }
    }

    /// After a claim by `scope` through `anc` that leaves `rest` of range `r`:
    /// the outermost level, and each level along the path, as `state_after`
    /// says; all other levels unchanged.
    pub open spec fn claimed(
        &self,
        next: &Ranges,
        r: int,
        anc: Seq<(String, String)>,
        scope: usize,
        rest: RangeAllocSingle,
    ) -> bool {
        &&& next.allocs@ == self.allocs@.update(r, self.state_after(r, anc, 0, scope, rest))
        &&& next.serial@ == self.serial@
        &&& forall|r2: int, key: Seq<(Seq<char>, Seq<char>)>|
            #[trigger] level_at(next.levels@, r2, key) == if r2 == r && 1 <= key.len() <= anc.len() && key
                == path_view(anc.take(key.len() as int)) {
                Some(self.state_after(r, anc, key.len(), scope, rest))
            } else {
                level_at(self.levels@, r2, key)
            }
    }

    fn copy_alloc(a: &RangeAlloc) -> (out: RangeAlloc)
        ensures
            out == *a,
    {
        match a {
            RangeAlloc::Unset(x) => RangeAlloc::Unset(*x),
            RangeAlloc::Local(s, x) => RangeAlloc::Local(*s, *x),
            RangeAlloc::Enum(n, x) => RangeAlloc::Enum(n.clone(), *x),
        }
    }

    /// The path `p` names the first `k` levels of `anc`.
    fn path_matches(p: &Vec<(String, String)>, anc: &Ancestry, k: usize) -> (out: bool)
        requires
            k <= anc.len(),
        ensures
            out == (path_view(p@) == path_view(anc@.take(k as int))),
    {
        if p.len() != k {
            return false;
        }
        let mut i: usize = 0;
        while i < k
            invariant
                i <= k <= anc.len(),
                p.len() == k,
                forall|j: int| 0 <= j < i ==> p@[j].0@ == anc@[j].0@ && p@[j].1@ == anc@[j].1@,
            decreases k - i,
        {
            if p[i].0 != anc[i].0 || p[i].1 != anc[i].1 {
                assert(path_view(p@)[i as int] != path_view(anc@.take(k as int))[i as int]);
                return false;
            }
            i = i + 1;
        }
        assert(path_view(p@) =~= path_view(anc@.take(k as int)));
        true
    }

    fn find_level_exec(&self, r: usize, anc: &Ancestry, k: usize) -> (out: Option<usize>)
        requires
            k <= anc.len(),
        ensures
            match out {
                Some(i) => i as int == find_level(self.levels@, r as int, path_view(anc@.take(k as int)), 0)
                    && i < self.levels.len(),
                None => find_level(self.levels@, r as int, path_view(anc@.take(k as int)), 0) == -1,
            },
    {
        let ghost key = path_view(anc@.take(k as int));
        let mut i: usize = 0;
        while i < self.levels.len()
            invariant
                i <= self.levels.len(),
                k <= anc.len(),
                key == path_view(anc@.take(k as int)),
                find_level(self.levels@, r as int, key, 0) == find_level(self.levels@, r as int, key, i as int),
            decreases self.levels.len() - i,
        {
            let e = &self.levels[i];
            if e.0 == r && Self::path_matches(&e.1, anc, k) {
                return Some(i);
            }
            i = i + 1;
        }
        None
    }

    /// The state of each level of range `r` along `ancestry`, or why a scope
    /// escaping through it may not use the range.
    fn walk(&self, r: usize, ancestry: &Ancestry) -> (out: Result<Vec<RangeAlloc>, SchemaError>)
        requires
            self.wf(),
            r < self.allocs.len(),
        ensures
            match self.eff_state(r as int, ancestry@, ancestry.len() as nat) {
                Err(e) => out == Err::<Vec<RangeAlloc>, SchemaError>(e),
                Ok(_) => out is Ok && out->Ok_0.len() == ancestry.len() + 1 && forall|k: int|
                    0 <= k <= ancestry.len() ==> self.eff_state(r as int, ancestry@, k as nat) == Ok::<
                        RangeAlloc,
                        SchemaError,
                    >(#[trigger] out->Ok_0@[k]),
            },
            out matches Ok(v) ==> forall|k: int| 0 <= k < v.len() ==> single_wf(alloc_single(#[trigger] v@[k])),
    {
        let mut states: Vec<RangeAlloc> = Vec::new();
        states.push(Self::copy_alloc(&self.allocs[r]));
        let mut k: usize = 0;
        while k < ancestry.len()
            invariant
                self.wf(),
                r < self.allocs.len(),
                k <= ancestry.len(),
                states.len() == k + 1,
                forall|j: int|
                    0 <= j <= k ==> self.eff_state(r as int, ancestry@, j as nat) == Ok::<RangeAlloc, SchemaError>(
                        #[trigger] states@[j],
                    ),
                forall|j: int| 0 <= j < states.len() ==> single_wf(alloc_single(#[trigger] states@[j])),
            decreases ancestry.len() - k,
        {
            let next = match &states[k] {
                RangeAlloc::Unset(a) => RangeAlloc::Unset(*a),
                RangeAlloc::Local(_, _) => {
                    proof {
                        lemma_eff_err_stays(self, r as int, ancestry@, (k + 1) as nat, ancestry.len() as nat);
                    }
                    return Err(SchemaError::RangeUsedElsewhere);
                },
                RangeAlloc::Enum(name, t) => {
                    if *name != ancestry[k].0 {
                        proof {
                            lemma_eff_err_stays(self, r as int, ancestry@, (k + 1) as nat, ancestry.len() as nat);
                        }
                        return Err(SchemaError::RangeUsedByOtherEnum);
                    }
                    match self.find_level_exec(r, ancestry, k + 1) {
                        Some(i) => {
                            proof {
                                lemma_find_level_bounds(self.levels@, r as int, path_view(ancestry@.take(k + 1)), 0);
                            }
                            Self::copy_alloc(&self.levels[i].2)
                        },
                        None => RangeAlloc::Unset(*t),
                    }
                },
            };
            states.push(next);
            k = k + 1;
        }
        assert(self.eff_state(r as int, ancestry@, ancestry.len() as nat) == Ok::<RangeAlloc, SchemaError>(states@[ancestry.len() as int]));
        Ok(states)
    }

    pub(crate) fn check(&self, r: usize, ancestry: &Ancestry) -> (out: Result<RangeAllocSingle, SchemaError>)
        requires
            self.wf(),
            r < self.allocs.len(),
        ensures
            out == self.spec_check(r as int, ancestry@),
            out matches Ok(a) ==> single_wf(a),
    {
        let states = match self.walk(r, ancestry) {
            Err(e) => {
                return Err(e);
            },
            Ok(v) => v,
        };
        match &states[ancestry.len()] {
            RangeAlloc::Unset(a) => Ok(*a),
            RangeAlloc::Local(_, a) => Ok(*a),
            RangeAlloc::Enum(_, _) => Err(SchemaError::RangeUsedElsewhere),
        }
    }

    /// Records a claim whose check passed.
    fn commit(&mut self, r: usize, ancestry: &Ancestry, scope: usize, rest: RangeAllocSingle)
        requires
            old(self).wf(),
            r < old(self).allocs.len(),
            old(self).spec_check(r as int, ancestry@) is Ok,
            single_wf(rest),
        ensures
            final(self).wf(),
            old(self).claimed(final(self), r as int, ancestry@, scope, rest),
    {
        let ghost old_self = *self;
        let states = match self.walk(r, ancestry) {
            Ok(v) => v,
            Err(_) => {
                return;
            },
        };
        let n = ancestry.len();
        let mut k: usize = 1;
        while k <= n
            invariant
                1 <= k <= n + 1,
                n == ancestry.len(),
                states.len() == n + 1,
                self.allocs@ == old_self.allocs@,
                self.serial@ == old_self.serial@,
                self.wf(),
                old_self.wf(),
                r < old_self.allocs.len(),
                forall|j: int|
                    0 <= j <= n ==> old_self.eff_state(r as int, ancestry@, j as nat) == Ok::<RangeAlloc, SchemaError>(
                        #[trigger] states@[j],
                    ),
                forall|j: int| 0 <= j < states.len() ==> single_wf(alloc_single(#[trigger] states@[j])),
                single_wf(rest),
                forall|r2: int, key: Seq<(Seq<char>, Seq<char>)>|
                    #[trigger] level_at(self.levels@, r2, key) == if r2 == r && 1 <= key.len() < k && key
                        == path_view(ancestry@.take(key.len() as int)) {
                        Some(old_self.state_after(r as int, ancestry@, key.len(), scope, rest))
                    } else {
                        level_at(old_self.levels@, r2, key)
                    },
            decreases n + 1 - k,
        {
            let st = if k == n {
                match &states[k] {
                    RangeAlloc::Local(s0, _) => RangeAlloc::Local(*s0, rest),
                    _ => RangeAlloc::Local(scope, rest),
                }
            } else {
                match &states[k] {
                    RangeAlloc::Unset(a) => RangeAlloc::Enum(ancestry[k].0.clone(), *a),
                    other => Self::copy_alloc(other),
                }
            };
            let mut path: Vec<(String, String)> = Vec::new();
            let mut j: usize = 0;
            while j < k
                invariant
                    j <= k <= n == ancestry.len(),
                    path@ == ancestry@.take(j as int),
                decreases k - j,
            {
                path.push((ancestry[j].0.clone(), ancestry[j].1.clone()));
                j = j + 1;
                proof {
                    assert(path@ =~= ancestry@.take(j as int));
                }
            }
            let ghost before = self.levels@;
            proof {
                lemma_find_level_bounds(before, r as int, path_view(path@), 0);
            }
            match self.find_level_exec(r, ancestry, k) {
                Some(i) => {
                    self.levels.set(i, (r, path, st));
                },
                None => {
                    self.levels.push((r, path, st));
                },
            }
            proof {
                assert(single_wf(alloc_single(st)));
                assert(self.levels@ =~= set_level(before, r, path, st));
                assert forall|i: int| 0 <= i < self.levels.len() implies single_wf(alloc_single((#[trigger] self.levels@[i]).2)) by {
                    if i < before.len() && self.levels@[i] != before[i] {
                        assert(self.levels@[i].2 == st);
                    } else if i >= before.len() {
                        assert(self.levels@[i].2 == st);
                    }
                }
                assert forall|r2: int, key: Seq<(Seq<char>, Seq<char>)>|
                    #[trigger] level_at(self.levels@, r2, key) == if r2 == r && 1 <= key.len() < k + 1 && key
                        == path_view(ancestry@.take(key.len() as int)) {
                        Some(old_self.state_after(r as int, ancestry@, key.len(), scope, rest))
                    } else {
                        level_at(old_self.levels@, r2, key)
                    } by {
                    lemma_level_at_set(before, r, path, st, r2, key);
                    assert(path_view(path@).len() == k);
                    if r2 == r && key == path_view(path@) {
                        assert(key.len() == k);
                    }
                    if r2 == r && key.len() == k && key == path_view(ancestry@.take(key.len() as int)) {
                        assert(key == path_view(path@));
                    }
                }
            }
            k = k + 1;
        }
        let root = if n == 0 {
            match &states[0] {
                RangeAlloc::Local(s0, _) => RangeAlloc::Local(*s0, rest),
                _ => RangeAlloc::Local(scope, rest),
            }
        } else {
            match &states[0] {
                RangeAlloc::Unset(a) => RangeAlloc::Enum(ancestry[0].0.clone(), *a),
                other => Self::copy_alloc(other),
            }
        };
        self.allocs.set(r, root);
    }

    /// Claims the next `bytes` bytes and `bits` bits of range `r` for scope
    /// `scope`, escaping through `ancestry`, as a new range.
    /// Returns the new range.
    pub fn subrange(
        &mut self,
        r: usize,
        ancestry: &Ancestry,
        scope: usize,
        bytes: usize,
        bits: usize,
    ) -> (out: Result<usize, SchemaError>)
        requires
            old(self).wf(),
            r < old(self).allocs.len(),
        ensures
            final(self).wf(),
            ({
                let using = BVec { bytes, bits };
                let chk = old(self).spec_check(r as int, ancestry@);
                if bits >= 8 {
                    out == Err::<usize, SchemaError>(SchemaError::ExcessBitsTooLarge)
                } else if chk is Err {
                    out == Err::<usize, SchemaError>(chk->Err_0)
                } else if spec_gt(using, chk->Ok_0.avail) {
                    out == Err::<usize, SchemaError>(SchemaError::RangeTooSmall)
                } else {
                    let a = chk->Ok_0;
                    &&& out == Ok::<usize, SchemaError>(old(self).allocs.len())
                    &&& final(self).allocs@ == old(self).allocs@.update(
                        r as int,
                        old(self).state_after(r as int, ancestry@, 0, scope, spec_rest(a, using)),
                    ).push(RangeAlloc::Unset(spec_take_front(a, using)))
                    &&& final(self).serial@ == old(self).serial@.push(old(self).serial@[r as int])
                    &&& forall|r2: int, key: Seq<(Seq<char>, Seq<char>)>|
                        #[trigger] level_at(final(self).levels@, r2, key) == if r2 == r && 1 <= key.len()
                            <= ancestry.len() && key == path_view(ancestry@.take(key.len() as int)) {
                            Some(old(self).state_after(r as int, ancestry@, key.len(), scope, spec_rest(a, using)))
                        } else {
                            level_at(old(self).levels@, r2, key)
                        }
                }
            }),
            out is Err ==> final(self).allocs@ == old(self).allocs@ && final(self).levels@ == old(self).levels@
                && final(self).serial@ == old(self).serial@,
    {
        let using = BVec { bytes, bits };
        if using.bits >= 8 {
            return Err(SchemaError::ExcessBitsTooLarge);
        }
        let a = match self.check(r, ancestry) {
            Err(e) => {
                return Err(e);
            },
            Ok(a) => a,
        };
        if using.gt(&a.avail) {
            return Err(SchemaError::RangeTooSmall);
        }
        proof {
            lemma_claims_partition(a, using);
        }
        let rest = RangeAllocSingle { start: a.start.add(using), avail: a.avail.sub(using) };
        self.commit(r, ancestry, scope, rest);
        let n = self.allocs.len();
        self.allocs.push(RangeAlloc::Unset(RangeAllocSingle { start: a.start, avail: using }));
        let s = self.serial[r];
        self.serial.push(s);
        Ok(n)
    }

    /// Claims everything left of range `r` for scope `scope`, escaping through
    /// `ancestry` (byte arrays, integers).  Returns the claimed part.
    pub fn take_all(&mut self, r: usize, ancestry: &Ancestry, scope: usize) -> (out: Result<
        RangeAllocSingle,
        SchemaError,
    >)
        requires
            old(self).wf(),
            r < old(self).allocs.len(),
        ensures
            final(self).wf(),
            final(self).serial@ == old(self).serial@,
            ({
                let chk = old(self).spec_check(r as int, ancestry@);
                if chk is Err {
                    out == chk
                } else if chk->Ok_0.avail == (BVec { bytes: 0, bits: 0 }) {
                    out == Err::<RangeAllocSingle, SchemaError>(SchemaError::RangeExhausted)
                } else {
                    let a = chk->Ok_0;
                    let rest = RangeAllocSingle { start: a.start, avail: BVec { bytes: 0, bits: 0 } };
                    &&& out == Ok::<RangeAllocSingle, SchemaError>(a)
                    &&& single_wf(a)
                    &&& old(self).claimed(final(self), r as int, ancestry@, scope, rest)
                }
            }),
            out is Err ==> final(self).allocs@ == old(self).allocs@ && final(self).levels@ == old(self).levels@,
    {
        let a = match self.check(r, ancestry) {
            Err(e) => {
                return Err(e);
            },
            Ok(a) => a,
        };
        if a.avail.is_zero() {
            return Err(SchemaError::RangeExhausted);
        }
        let rest = RangeAllocSingle { start: a.start, avail: BVec::zero() };
        self.commit(r, ancestry, scope, rest);
        Ok(a)
    }
}

/// Once a level is in error, the levels below it are too.
proof fn lemma_eff_err_stays(rs: &Ranges, r: int, anc: Seq<(String, String)>, k: nat, m: nat)
    requires
        k <= m,
        rs.eff_state(r, anc, k) is Err,
    ensures
        rs.eff_state(r, anc, m) == rs.eff_state(r, anc, k),
    decreases m - k,
{
    if k < m {
        lemma_eff_err_stays(rs, r, anc, k, (m - 1) as nat);
    }
}

proof fn lemma_not_gt_bounds(using: BVec, avail: BVec)
    requires
        using.bits <= 8,
        avail.bits <= 8,
        !spec_gt(using, avail),
    ensures
        sub_defined(avail, using),
        using.total() <= avail.total(),
{
}

/// Claiming from the front of a part splits it: the claimer gets the first
/// `using` bits and the rest starts right after, so successive claims never
/// overlap and never leave the part.
pub proof fn lemma_claims_partition(a: RangeAllocSingle, using: BVec)
    requires
        single_wf(a),
        using.bits <= 8,
        !spec_gt(using, a.avail),
    ensures
        spec_take_front(a, using).start.total() == a.start.total(),
        spec_take_front(a, using).avail.total() == using.total(),
        spec_rest(a, using).start.total() == a.start.total() + using.total(),
        spec_rest(a, using).start.total() + spec_rest(a, using).avail.total() == a.start.total()
            + a.avail.total(),
        single_wf(spec_rest(a, using)),
{
    lemma_not_gt_bounds(using, a.avail);
    let r = spec_rest(a, using);
    assert(r.start.total() == a.start.total() + using.total());
    assert(r.avail.total() == a.avail.total() - using.total()) by {
        if using.bits > a.avail.bits {
        }
    }
}



proof fn lemma_eff_ok_below(rs: &Ranges, r: int, anc: Seq<(String, String)>, k: nat, m: nat)
    requires
        k <= m,
        rs.eff_state(r, anc, m) is Ok,
    ensures
        rs.eff_state(r, anc, k) is Ok,
        k < m ==> !(rs.eff_state(r, anc, k)->Ok_0 is Local),
        k < m && rs.eff_state(r, anc, k)->Ok_0 is Enum ==> rs.eff_state(r, anc, k)->Ok_0->Enum_0@ == anc[k as int].0@,
{
    if rs.eff_state(r, anc, k) is Err {
        lemma_eff_err_stays(rs, r, anc, k, m);
    }
    if k < m {
        if rs.eff_state(r, anc, (k + 1) as nat) is Err {
            lemma_eff_err_stays(rs, r, anc, (k + 1) as nat, m);
        }
    }
}

proof fn lemma_claim_levels(
    old_rs: &Ranges,
    next: &Ranges,
    r: int,
    anc: Seq<(String, String)>,
    scope: usize,
    rest: RangeAllocSingle,
    k: nat,
)
    requires
        old_rs.spec_check(r, anc) is Ok,
        old_rs.claimed(next, r, anc, scope, rest),
        0 <= r < old_rs.allocs.len(),
        k <= anc.len(),
    ensures
        next.eff_state(r, anc, k) == Ok::<RangeAlloc, SchemaError>(old_rs.state_after(r, anc, k, scope, rest)),
    decreases k,
{
    lemma_eff_ok_below(old_rs, r, anc, k, anc.len());
    if k > 0 {
        let j = (k - 1) as nat;
        lemma_claim_levels(old_rs, next, r, anc, scope, rest, j);
        lemma_eff_ok_below(old_rs, r, anc, j, anc.len());
        let key = path_view(anc.take(k as int));
        assert(key.len() == k);
        assert(level_at(next.levels@, r, key) == Some(old_rs.state_after(r, anc, k, scope, rest)));
    }
}

/// A scope claims from where its own previous claim ended: after a claim
/// through `anc` that leaves `rest` of range `r`, a claim through the same
/// path finds `rest`.
pub proof fn lemma_claim_continues(
    old_rs: &Ranges,
    next: &Ranges,
    r: int,
    anc: Seq<(String, String)>,
    scope: usize,
    rest: RangeAllocSingle,
)
    requires
        0 <= r < old_rs.allocs.len(),
        old_rs.spec_check(r, anc) is Ok,
        old_rs.claimed(next, r, anc, scope, rest),
    ensures
        next.spec_check(r, anc) == Ok::<RangeAllocSingle, SchemaError>(rest),
{
    lemma_claim_levels(old_rs, next, r, anc, scope, rest, anc.len());
}

} // verus!
