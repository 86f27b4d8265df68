//! The builder API: scopes, ranges and the nodes created in them.
//!
//! `Scope`, `Range`, `NodeEnum` and `NodeObj` are handles into a `Schema`;
//! every operation takes the schema it works on.
use vstd::prelude::*;
use crate::bvec::BVec;
use crate::error::SchemaError;
use crate::range::{Ancestry, RangeAlloc, RangeAllocSingle};
use crate::schema::{
    Escape,
    NodeData,
    NodeKind,
    Schema,
    ScopeData,
    escape_path,
    escapes_ok,
    node_ok,
    opt_lt,
    rust_ident_ok,
    scope_ok,
};
pub use crate::node_int::Endian;

verus! {

/// A scope of a schema: the nodes evaluated together (see `Schema`).
#[derive(PartialEq, Eq, Structural, Clone, Copy, Debug)]
pub struct Scope {
    pub index: usize,
}

/// A sequence of bits of a fixed range that nodes can claim.
#[derive(PartialEq, Eq, Structural, Clone, Copy, Debug)]
pub struct Range {
    pub index: usize,
}

/// The names the range allocation knows escape levels by: the enum's type name
/// and the variant's name.
pub open spec fn ancestry_names(sc: &Schema, p: Seq<Escape>) -> Seq<(String, String)> {
    p.map_values(|e: Escape| (sc.node_text@[e.enum_node as int], sc.variant_names@[e.variant as int]))
}

proof fn lemma_escape_path_ok(sc: &Schema, s: int, target: int)
    requires
        sc.wf(),
    ensures
        escape_path(sc.scopes@, s, target) matches Some(p) ==> escapes_ok(
            p,
            sc.nodes.len() as int,
            sc.scopes.len() as int,
        ) && forall|i: int| 0 <= i < p.len() ==> (#[trigger] p[i]).variant < sc.variants.len(),
    decreases s,
{
    if 0 <= s < sc.scopes.len() && s != target {
        assert(scope_ok(sc.scopes@[s], s, sc.nodes.len() as int, sc.variants.len() as int));
        match sc.scopes@[s].escape {
            Some(e) => {
                if e.parent < s {
                    lemma_escape_path_ok(sc, e.parent as int, target);
                    match escape_path(sc.scopes@, e.parent as int, target) {
                        Some(rest) => {
                            let p = seq![e] + rest;
                            assert forall|i: int| 0 <= i < p.len() implies (#[trigger] p[i]).enum_node
                                < sc.nodes.len() && p[i].parent < sc.scopes.len() && p[i].variant < sc.variants.len() by {
                                if i > 0 {
                                    assert(p[i] == rest[i - 1]);
                                }
                            }
                        },
                        None => {},
                    }
                }
            },
            None => {},
        }
    }
}

impl Schema {
    /// A top level scope named `id`, which gets (de)serialization functions
    /// whose names start with `prefix`.  The prefix must not
    /// be used by another top level scope.
    pub fn scope(&mut self, id: &String, prefix: &String) -> (out: Result<Scope, SchemaError>)
        requires
            old(self).wf(),
            old(self).nodes.len() + 1 < usize::MAX,
        ensures
            final(self).wf(),
            !rust_ident_ok(id@ + "__serial"@) ==> out == Err::<Scope, SchemaError>(SchemaError::InvalidIdent)
                && *final(self) == *old(self),
            rust_ident_ok(id@ + "__serial"@) && (exists|i: int|
                0 <= i < old(self).top_scopes.len() && (#[trigger] old(self).top_scopes@[i]).0@ == prefix@)
                ==> out == Err::<Scope, SchemaError>(SchemaError::PrefixNotUnique) && *final(self) == *old(
                self,
            ),
            rust_ident_ok(id@ + "__serial"@) && !(exists|i: int|
                0 <= i < old(self).top_scopes.len() && (#[trigger] old(self).top_scopes@[i]).0@ == prefix@)
                ==> {
                let s = old(self).scopes.len();
                &&& out == Ok::<Scope, SchemaError>(Scope { index: s })
                &&& final(self).scopes@ == old(self).scopes@.push(
                    ScopeData {
                        serial_root: old(self).nodes.len(),
                        rust_root: None,
                        escape: None,
                        has_external_deps: false,
                    },
                )
                &&& final(self).top_scopes@ == old(self).top_scopes@.push((*prefix, s))
            },
    {
        let mut i: usize = 0;
        while i < self.top_scopes.len()
            invariant
                i <= self.top_scopes.len(),
                self.wf(),
                *self == *old(self),
                forall|k: int| 0 <= k < i ==> (#[trigger] self.top_scopes@[k]).0@ != prefix@,
            decreases self.top_scopes.len() - i,
        {
            if self.top_scopes[i].0 == *prefix {
                let serial_id = crate::schema::joined(id, "__serial");
                if !crate::schema::is_rust_ident(serial_id.as_str()) {
                    return Err(SchemaError::InvalidIdent);
                }
                return Err(SchemaError::PrefixNotUnique);
            }
            i = i + 1;
        }
        let s = match self.new_scope(id) {
            Err(e) => {
                return Err(e);
            },
            Ok(s) => s,
        };
        self.top_scopes.push((prefix.clone(), s));
        proof {
            assert forall|i: int| 0 <= i < self.top_scopes.len() implies (#[trigger] self.top_scopes@[i]).1
                < self.scopes.len() by {
                if i < old(self).top_scopes.len() {
                    assert(self.top_scopes@[i] == old(self).top_scopes@[i]);
                }
            }
        }
        Ok(Scope { index: s })
    }
}

impl Scope {
    /// The enclosing levels to escape through to reach scope `target`,
    /// outermost first; fails when `target` is not
    /// this scope or one it can escape to.
    pub fn get_ancestry_to(&self, sc: &Schema, target: usize) -> (out: Result<Vec<Escape>, SchemaError>)
        requires
            sc.wf(),
            self.index < sc.scopes.len(),
        ensures
            match escape_path(sc.scopes@, self.index as int, target as int) {
                None => out == Err::<Vec<Escape>, SchemaError>(SchemaError::NotInContainingScope),
                Some(p) => out is Ok && out->Ok_0@ == p.reverse() && escapes_ok(
                    out->Ok_0@,
                    sc.nodes.len() as int,
                    sc.scopes.len() as int,
                ) && forall|i: int| 0 <= i < out->Ok_0@.len() ==> (#[trigger] out->Ok_0@[i]).variant < sc.variants.len(),
            },
    {
        let mut at = self.index;
        let mut acc: Vec<Escape> = Vec::new();
        proof {
            assert(acc@ + escape_path(sc.scopes@, at as int, target as int)->Some_0 =~= escape_path(
                sc.scopes@,
                at as int,
                target as int,
            )->Some_0);
        }
        while at != target
            invariant
                sc.wf(),
                at < sc.scopes.len(),
                escape_path(sc.scopes@, self.index as int, target as int) == match escape_path(
                    sc.scopes@,
                    at as int,
                    target as int,
                ) {
                    Some(r) => Some(acc@ + r),
                    None => None::<Seq<Escape>>,
                },
            decreases at,
        {
            proof {
                assert(scope_ok(sc.scopes@[at as int], at as int, sc.nodes.len() as int, sc.variants.len() as int));
            }
            match sc.scopes[at].escape {
                Some(e) => {
                    proof {
                        match escape_path(sc.scopes@, e.parent as int, target as int) {
                            Some(r) => {
                                assert(acc@.push(e) + r =~= acc@ + (seq![e] + r));
                            },
                            None => {},
                        }
                    }
                    acc.push(e);
                    at = e.parent;
                },
                None => {
                    return Err(SchemaError::NotInContainingScope);
                },
            }
        }
        proof {
            assert(acc@ + Seq::<Escape>::empty() =~= acc@);
            lemma_escape_path_ok(sc, self.index as int, target as int);
        }
        let mut out: Vec<Escape> = Vec::new();
        let mut k: usize = acc.len();
        while k > 0
            invariant
                k <= acc.len(),
                out@ == acc@.subrange(k as int, acc.len() as int).reverse(),
            decreases k,
        {
            k = k - 1;
            out.push(acc[k]);
            proof {
                assert(out@ =~= acc@.subrange(k as int, acc.len() as int).reverse());
            }
        }
        proof {
            assert(acc@.subrange(0, acc.len() as int) =~= acc@);
            let p = acc@;
            assert forall|i: int| 0 <= i < out.len() implies (#[trigger] out@[i]).enum_node < sc.nodes.len()
                && out@[i].parent < sc.scopes.len() && out@[i].variant < sc.variants.len() by {
                assert(out@[i] == p[p.len() - 1 - i]);
            }
        }
        Ok(out)
    }

    /// The names of `ancestry`'s levels, as the range allocation needs them.
    fn range_ancestry(sc: &Schema, ancestry: &Vec<Escape>) -> (out: Ancestry)
        requires
            sc.wf(),
            escapes_ok(ancestry@, sc.nodes.len() as int, sc.scopes.len() as int),
            forall|i: int| 0 <= i < ancestry.len() ==> (#[trigger] ancestry@[i]).variant < sc.variants.len(),
        ensures
            out@ == ancestry_names(sc, ancestry@),
    {
        let mut out: Ancestry = Vec::new();
        let mut i: usize = 0;
        while i < ancestry.len()
            invariant
                sc.wf(),
                i <= ancestry.len(),
                escapes_ok(ancestry@, sc.nodes.len() as int, sc.scopes.len() as int),
                forall|k: int| 0 <= k < ancestry.len() ==> (#[trigger] ancestry@[k]).variant < sc.variants.len(),
                out@ == ancestry_names(sc, ancestry@.take(i as int)),
            decreases ancestry.len() - i,
        {
            let e = ancestry[i];
            let name = sc.node_text[e.enum_node].clone();
            let var = sc.variant_names[e.variant].clone();
            out.push((name, var));
            i = i + 1;
            proof {
                assert(out@ =~= ancestry_names(sc, ancestry@.take(i as int)));
            }
        }
        proof {
            assert(ancestry@.take(ancestry.len() as int) =~= ancestry@);
        }
        out
    }
}


impl Scope {
    /// A fixed number of bytes read/written next: a
    /// serial element named `id` and a fresh range over all of it.
    pub fn fixed_range(&self, sc: &mut Schema, id: &String, bytes: usize) -> (out: Result<Range, SchemaError>)
        requires
            old(sc).wf(),
            self.index < old(sc).scopes.len(),
            old(sc).nodes.len() + 2 < usize::MAX,
            bytes + 2 <= usize::MAX,
        ensures
            final(sc).wf(),
            old(sc).spec_check_serial(self.index as int, id@) is Err ==> out == Err::<Range, SchemaError>(
                old(sc).spec_check_serial(self.index as int, id@)->Err_0,
            ) && *final(sc) == *old(sc),
            old(sc).spec_check_serial(self.index as int, id@) is Ok ==> {
                let n = (old(sc).nodes.len() + 1) as usize;
                &&& out == Ok::<Range, SchemaError>(Range { index: old(sc).ranges.allocs.len() })
                &&& final(sc).nodes@[n as int].kind == NodeKind::FixedRange { len: bytes }
                &&& final(sc).nodes@[n as int].scope == self.index
                &&& final(sc).node_ids@[n as int]@ == id@
                &&& final(sc).ranges.serial@ == old(sc).ranges.serial@.push(n)
                &&& final(sc).ranges.allocs@ == old(sc).ranges.allocs@.push(
                    RangeAlloc::Unset(
                        RangeAllocSingle { start: BVec { bytes: 0, bits: 0 }, avail: BVec { bytes, bits: 0 } },
                    ),
                )
            },
    {
        let n = match sc.add_serial(self.index, id, NodeKind::FixedRange { len: bytes }, String::new(), true, true) {
            Err(e) => {
                return Err(e);
            },
            Ok(n) => n,
        };
        let r = sc.ranges.new_range(n, bytes);
        Ok(Range { index: r })
    }

    /// Padding so that the next element starts at a multiple of `alignment`
    /// after adding `shift` to the offset.  The alignment is at least 1; the
    /// id names no node.
    pub fn align(&self, sc: &mut Schema, id: &String, shift: usize, alignment: usize) -> (out: Result<(), SchemaError>)
        requires
            old(sc).wf(),
            self.index < old(sc).scopes.len(),
            old(sc).nodes.len() + 2 < usize::MAX,
        ensures
            final(sc).wf(),
            alignment == 0 ==> out == Err::<(), SchemaError>(SchemaError::ZeroAlignment),
            alignment >= 1 ==> out == old(sc).spec_check_serial(self.index as int, id@),
            out is Err ==> *final(sc) == *old(sc),
            out is Ok ==> old(sc).added_serial(
                final(sc),
                self.index as int,
                id@,
                NodeKind::Align { shift, alignment },
                false,
                true,
            ),
    {
        if alignment == 0 {
            return Err(SchemaError::ZeroAlignment);
        }
        match sc.add_serial(self.index, id, NodeKind::Align { shift, alignment }, String::new(), false, true) {
            Err(e) => Err(e),
            Ok(_) => Ok(()),
        }
    }

    /// Bytes up to `delimiter`, which is consumed and not part of the value.
    /// Reading it needs a buffered reader.
    pub fn delimited_bytes(&self, sc: &mut Schema, id: &String, delimiter: &[u8]) -> (out: Result<usize, SchemaError>)
        requires
            old(sc).wf(),
            self.index < old(sc).scopes.len(),
            old(sc).nodes.len() + 2 < usize::MAX,
        ensures
            final(sc).wf(),
            final(sc).reader_buffered,
            old(sc).spec_check_serial(self.index as int, id@) is Err ==> out == Err::<usize, SchemaError>(
                old(sc).spec_check_serial(self.index as int, id@)->Err_0,
            ),
            old(sc).spec_check_serial(self.index as int, id@) is Ok ==> {
                let n = (old(sc).nodes.len() + 1) as usize;
                &&& out == Ok::<usize, SchemaError>(n)
                &&& final(sc).nodes@[n as int].kind == NodeKind::DelimitedBytes
                &&& final(sc).nodes@[n as int].scope == self.index
                &&& final(sc).node_ids@[n as int]@ == id@
                &&& final(sc).delimiters@.len() == old(sc).delimiters@.len() + 1
                &&& final(sc).delimiters@.last().0 == n
                &&& final(sc).delimiters@.last().1@ == delimiter@
            },
    {
        sc.reader_buffered = true;
        let n = match sc.add_serial(self.index, id, NodeKind::DelimitedBytes, String::new(), true, true) {
            Err(e) => {
                return Err(e);
            },
            Ok(n) => n,
        };
        let mut d: Vec<u8> = Vec::new();
        let mut i: usize = 0;
        while i < delimiter.len()
            invariant
                i <= delimiter.len(),
                d@ == delimiter@.take(i as int),
            decreases delimiter.len() - i,
        {
            d.push(delimiter[i]);
            i = i + 1;
            proof {
                assert(d@ =~= delimiter@.take(i as int));
            }
        }
        proof {
            assert(d@ =~= delimiter@);
        }
        let ghost before = sc.delimiters@;
        sc.delimiters.push((n, d));
        proof {
            assert forall|i: int| 0 <= i < sc.delimiters.len() implies (#[trigger] sc.delimiters@[i]).0 < sc.nodes.len() by {
                if i < before.len() {
                    assert(sc.delimiters@[i] == before[i]);
                }
            }
        }
        Ok(n)
    }

    /// Bytes up to the end of the data.
    pub fn remaining_bytes(&self, sc: &mut Schema, id: &String) -> (out: Result<usize, SchemaError>)
        requires
            old(sc).wf(),
            self.index < old(sc).scopes.len(),
            old(sc).nodes.len() + 2 < usize::MAX,
        ensures
            final(sc).wf(),
            old(sc).spec_check_serial(self.index as int, id@) is Err ==> out == Err::<usize, SchemaError>(
                old(sc).spec_check_serial(self.index as int, id@)->Err_0,
            ) && *final(sc) == *old(sc),
            old(sc).spec_check_serial(self.index as int, id@) is Ok ==> out == Ok::<usize, SchemaError>(
                (old(sc).nodes.len() + 1) as usize,
            ) && old(sc).added_serial(
                final(sc),
                self.index as int,
                id@,
                NodeKind::RemainingBytes,
                true,
                true,
            ),
    {
        sc.add_serial(self.index, id, NodeKind::RemainingBytes, String::new(), true, true)
    }

    /// Sets the node the scope reads into and writes from;
    /// a scope has one.
    pub fn rust_root(&self, sc: &mut Schema, node: usize) -> (out: Result<(), SchemaError>)
        requires
            old(sc).wf(),
            self.index < old(sc).scopes.len(),
            node < old(sc).nodes.len(),
        ensures
            final(sc).wf(),
            old(sc).scopes@[self.index as int].rust_root is Some ==> out == Err::<(), SchemaError>(
                SchemaError::RustRootAlreadyDefined,
            ) && *final(sc) == *old(sc),
            old(sc).scopes@[self.index as int].rust_root is None ==> out is Ok && final(sc).scopes@
                == old(sc).scopes@.update(
                self.index as int,
                ScopeData { rust_root: Some(node), ..old(sc).scopes@[self.index as int] },
            ) && final(sc).nodes@ == old(sc).nodes@,
    {
        let mut d = sc.scopes[self.index];
        if d.rust_root.is_some() {
            return Err(SchemaError::RustRootAlreadyDefined);
        }
        d.rust_root = Some(node);
        sc.scopes.set(self.index, d);
        proof {
            assert forall|i: int| 0 <= i < sc.scopes.len() implies scope_ok(
                #[trigger] sc.scopes@[i],
                i,
                sc.nodes.len() as int,
                sc.variants.len() as int,
            ) by {
                assert(scope_ok(old(sc).scopes@[i], i, sc.nodes.len() as int, sc.variants.len() as int));
            }
        }
        Ok(())
    }

    /// The node the scope reads into.
    pub fn get_rust_root(&self, sc: &Schema) -> (out: Result<usize, SchemaError>)
        requires
            self.index < sc.scopes.len(),
        ensures
            match sc.scopes@[self.index as int].rust_root {
                Some(r) => out == Ok::<usize, SchemaError>(r),
                None => out == Err::<usize, SchemaError>(SchemaError::NoRustRoot),
            },
    {
        match sc.scopes[self.index].rust_root {
            Some(r) => Ok(r),
            None => Err(SchemaError::NoRustRoot),
        }
    }
}


impl Scope {
    /// Adds node `id` of kind `kind` to this scope, with `serial`, reached
    /// through `ancestry`, as its input.  The id is checked first, then the
    /// connection; on failure nothing changes.
    fn attach(
        &self,
        sc: &mut Schema,
        id: &String,
        kind: NodeKind,
        text: String,
        ancestry: &Vec<Escape>,
        serial: usize,
    ) -> (out: Result<usize, SchemaError>)
        requires
            old(sc).wf(),
            self.index < old(sc).scopes.len(),
            old(sc).nodes.len() + 1 < usize::MAX,
            serial < old(sc).nodes.len(),
            escapes_ok(ancestry@, old(sc).nodes.len() as int, old(sc).scopes.len() as int),
            node_ok(
                NodeData { kind, scope: self.index, serial_before: None, segment: None, rust: None },
                old(sc).nodes.len() + 1,
                old(sc).scopes.len() as int,
            ),
        ensures
            final(sc).wf(),
            ({
                let n = old(sc).nodes.len();
                let chk = old(sc).spec_check_id(self.index as int, id@);
                let conn = crate::schema::spec_set_rust(old(sc), serial, crate::schema::lift_target(ancestry@, n));
                if chk is Err {
                    out == Err::<usize, SchemaError>(chk->Err_0) && *final(sc) == *old(sc)
                } else if conn is Err {
                    out == Err::<usize, SchemaError>(conn->Err_0) && *final(sc) == *old(sc)
                } else {
                    &&& out == Ok::<usize, SchemaError>(n)
                    &&& final(sc).nodes.len() == n + 1
                    &&& final(sc).nodes@[n as int] == NodeData {
                        kind,
                        scope: self.index,
                        serial_before: None,
                        segment: None,
                        rust: None,
                    }
                    &&& final(sc).node_ids@[n as int]@ == id@
                    &&& final(sc).node_text@[n as int] == text
                    &&& forall|m: int| 0 <= m < n && m != serial ==> final(sc).nodes@[m] == old(sc).nodes@[m]
                    &&& crate::schema::connected(final(sc), serial, crate::schema::lift_target(ancestry@, n))
                    &&& final(sc).links@ == old(sc).links@.push(
                        crate::schema::Link {
                            user: n,
                            primary: serial,
                            redirect: if ancestry.len() == 0 {
                                None
                            } else {
                                Some(old(sc).scopes@[self.index as int].serial_root)
                            },
                        },
                    )
                    &&& final(sc).scopes.len() == old(sc).scopes.len()
                    &&& forall|i: int| 0 <= i < old(sc).scopes.len() ==> (#[trigger] final(sc).scopes@[i]).escape == old(sc).scopes@[i].escape
                    &&& final(sc).level_ids@ == old(sc).level_ids@.push((self.index, *id, Some(n)))
                    &&& final(sc).variants@ == old(sc).variants@
                    &&& final(sc).ranges == old(sc).ranges
                    &&& crate::schema::values_frame(old(sc), final(sc))
                }
            }),
    {
        let n = sc.nodes.len();
        match sc.check_id(self.index, id) {
            Err(e) => {
                return Err(e);
            },
            Ok(_) => {},
        }
        let target = if ancestry.len() == 0 {
            n
        } else {
            ancestry[0].enum_node
        };
        match sc.can_set_rust(serial, target) {
            Err(e) => {
                return Err(e);
            },
            Ok(_) => {},
        }
        let ghost s0 = *sc;
        let n2 = sc.push_node(
            NodeData { kind, scope: self.index, serial_before: None, segment: None, rust: None },
            id.clone(),
            text,
        );
        let ghost s1 = *sc;
        assert(s1.nodes@[serial as int] == s0.nodes@[serial as int]);
        let _ = sc.take_id(self.index, id, Some(n2));
        let r = sc.lift_connect(self.index, ancestry, serial, n2);
        assert(r is Ok);
        Ok(n2)
    }
}


/// The fixed range node a range is part of.
pub open spec fn range_node(sc: &Schema, r: Range) -> usize {
    sc.ranges.serial@[r.index as int]
}

/// Whether scope `s` may claim from range `r`, and from which part: the range's
/// scope must be `s` or one `s` escapes to; then the range allocation decides.
pub open spec fn spec_claim(sc: &Schema, s: int, r: Range) -> Result<(Seq<Escape>, RangeAllocSingle), SchemaError> {
    match escape_path(sc.scopes@, s, sc.nodes@[range_node(sc, r) as int].scope as int) {
        None => Err(SchemaError::NotInContainingScope),
        Some(p) => {
            let anc = p.reverse();
            match sc.ranges.spec_check(r.index as int, ancestry_names(sc, anc)) {
                Err(e) => Err(e),
                Ok(a) => Ok((anc, a)),
            }
        },
    }
}

/// Claiming all that is left of `r`: as `spec_claim`, and something must be
/// left.
pub open spec fn spec_claim_all(sc: &Schema, s: int, r: Range) -> Result<(Seq<Escape>, RangeAllocSingle), SchemaError> {
    match spec_claim(sc, s, r) {
        Err(e) => Err(e),
        Ok((anc, a)) => if a.avail == (BVec { bytes: 0, bits: 0 }) {
            Err(SchemaError::RangeExhausted)
        } else {
            Ok((anc, a))
        },
    }
}

/// The allocation of range `r` after scope `s`, escaping through `anc`, claimed
/// all of part `a` of it.
pub open spec fn allocs_after_claim_all(sc: &Schema, s: int, r: Range, anc: Seq<Escape>, a: RangeAllocSingle) -> Seq<RangeAlloc> {
    let rest = RangeAllocSingle { start: a.start, avail: BVec { bytes: 0, bits: 0 } };
    sc.ranges.allocs@.update(r.index as int, sc.ranges.state_after(r.index as int, ancestry_names(sc, anc), 0, s as usize, rest))
}

/// The ranges after scope `s` claimed all that is left of `r`: the levels
/// along its path as `Ranges::claimed` says, everything else unchanged.
pub open spec fn ranges_after_claim_all(old: &Schema, new: &Schema, s: int, r: Range) -> bool {
    let (anc, a) = spec_claim_all(old, s, r)->Ok_0;
    old.ranges.claimed(
        &new.ranges,
        r.index as int,
        ancestry_names(old, anc),
        s as usize,
        RangeAllocSingle { start: a.start, avail: BVec { bytes: 0, bits: 0 } },
    )
}

/// What `Scope::bytes` makes of `r`: a byte array node, or why not.
pub open spec fn spec_bytes_kind(sc: &Schema, s: int, id: Seq<char>, r: Range) -> Result<NodeKind, SchemaError> {
    match spec_claim_all(sc, s, r) {
        Err(e) => Err(e),
        Ok((_, a)) => if a.start.bits != 0 {
            Err(SchemaError::NotByteAligned)
        } else if a.avail.bits != 0 {
            Err(SchemaError::NotWholeBytes)
        } else {
            match sc.spec_check_id(s, id) {
                Err(e) => Err(e),
                Ok(_) => Ok(NodeKind::FixedBytes { start: a.start.bytes, len: a.avail.bytes }),
            }
        },
    }
}

/// What `Scope::int_` makes of `r`: an integer node, or why not.
pub open spec fn spec_int_kind(sc: &Schema, s: int, id: Seq<char>, r: Range, endian: Endian, signed: bool) -> Result<
    NodeKind,
    SchemaError,
> {
    match spec_claim_all(sc, s, r) {
        Err(e) => Err(e),
        Ok((_, a)) => match crate::node_int::spec_int_type(a.avail, signed) {
            None => Err(SchemaError::IntTooWide),
            Some(t) => match crate::node_int::spec_int_code(a.start, a.avail, t.rust_bits / 8) {
                Err(e) => Err(e),
                Ok(code) => match sc.spec_check_id(s, id) {
                    Err(e) => Err(e),
                    Ok(_) => Ok(NodeKind::Int { code, int_type: t, endian }),
                },
            },
        },
    }
}

impl Scope {
    fn claim(&self, sc: &Schema, r: Range) -> (out: Result<(Vec<Escape>, RangeAllocSingle), SchemaError>)
        requires
            sc.wf(),
            self.index < sc.scopes.len(),
            r.index < sc.ranges.allocs.len(),
        ensures
            match spec_claim(sc, self.index as int, r) {
                Err(e) => out == Err::<(Vec<Escape>, RangeAllocSingle), SchemaError>(e),
                Ok((anc, a)) => out is Ok && out->Ok_0.0@ == anc && out->Ok_0.1 == a && escapes_ok(
                    anc,
                    sc.nodes.len() as int,
                    sc.scopes.len() as int,
                ) && (forall|i: int| 0 <= i < anc.len() ==> (#[trigger] anc[i]).variant < sc.variants.len())
                    && crate::range::single_wf(a),
            },
    {
        let rn = sc.ranges.serial[r.index];
        let target = sc.nodes[rn].scope;
        let anc = match self.get_ancestry_to(sc, target) {
            Err(e) => {
                return Err(e);
            },
            Ok(a) => a,
        };
        let names = Scope::range_ancestry(sc, &anc);
        match sc.ranges.check(r.index, &names) {
            Err(e) => Err(e),
            Ok(a) => Ok((anc, a)),
        }
    }

    /// Claims the next `bytes` bytes and `bits` bits of `range` as a new range.
    /// Excess bits must be below a byte (fewer than 8); the range must
    /// be reachable and have room.
    pub fn subrange(&self, sc: &mut Schema, range: Range, bytes: usize, bits: usize) -> (out: Result<
        Range,
        SchemaError,
    >)
        requires
            old(sc).wf(),
            self.index < old(sc).scopes.len(),
            range.index < old(sc).ranges.allocs.len(),
        ensures
            final(sc).wf(),
            bits >= 8 ==> out == Err::<Range, SchemaError>(SchemaError::ExcessBitsTooLarge) && *final(sc)
                == *old(sc),
            bits < 8 ==> match spec_claim(old(sc), self.index as int, range) {
                Err(e) => out == Err::<Range, SchemaError>(e) && *final(sc) == *old(sc),
                Ok((_, a)) => if crate::bvec::spec_gt(BVec { bytes, bits }, a.avail) {
                    out == Err::<Range, SchemaError>(SchemaError::RangeTooSmall) && *final(sc) == *old(sc)
                } else {
                    &&& out == Ok::<Range, SchemaError>(Range { index: old(sc).ranges.allocs.len() })
                    &&& {
                        let names = ancestry_names(old(sc), spec_claim(old(sc), self.index as int, range)->Ok_0.0);
                        let rest = crate::range::spec_rest(a, BVec { bytes, bits });
                        &&& final(sc).ranges.allocs@ == old(sc).ranges.allocs@.update(
                            range.index as int,
                            old(sc).ranges.state_after(range.index as int, names, 0, self.index, rest),
                        ).push(RangeAlloc::Unset(crate::range::spec_take_front(a, BVec { bytes, bits })))
                        &&& forall|r2: int, key: Seq<(Seq<char>, Seq<char>)>|
                            #[trigger] crate::range::level_at(final(sc).ranges.levels@, r2, key) == if r2
                                == range.index && 1 <= key.len() <= names.len() && key == crate::range::path_view(
                                names.take(key.len() as int),
                            ) {
                                Some(old(sc).ranges.state_after(range.index as int, names, key.len(), self.index, rest))
                            } else {
                                crate::range::level_at(old(sc).ranges.levels@, r2, key)
                            }
                    }
                    &&& final(sc).ranges.serial@.last() == range_node(old(sc), range)
                    &&& final(sc).nodes@ == old(sc).nodes@
                    &&& *final(sc) == (Schema { ranges: final(sc).ranges, ..*old(sc) })
                },
            },
    {
        if bits >= 8 {
            return Err(SchemaError::ExcessBitsTooLarge);
        }
        let (anc, a) = match self.claim(sc, range) {
            Err(e) => {
                return Err(e);
            },
            Ok(x) => x,
        };
        let using = BVec { bytes, bits };
        if using.gt(&a.avail) {
            return Err(SchemaError::RangeTooSmall);
        }
        let names = Scope::range_ancestry(sc, &anc);
        let ghost before = sc.ranges.serial@;
        let r = sc.ranges.subrange(range.index, &names, self.index, bytes, bits);
        proof {
            assert forall|i: int| 0 <= i < sc.ranges.serial.len() implies (#[trigger] sc.ranges.serial@[i])
                < sc.nodes.len() by {
                if i < before.len() {
                    assert(sc.ranges.serial@[i] == before[i]);
                }
            }
        }
        match r {
            Ok(i) => Ok(Range { index: i }),
            Err(e) => Err(e),
        }
    }

    /// Claims everything left of `range` and adds node `id` of `kind` using it.
    fn claim_all_for(&self, sc: &mut Schema, id: &String, range: Range, anc: &Vec<Escape>, kind: NodeKind) -> (out:
        Result<usize, SchemaError>)
        requires
            old(sc).wf(),
            self.index < old(sc).scopes.len(),
            old(sc).nodes.len() + 1 < usize::MAX,
            range.index < old(sc).ranges.allocs.len(),
            spec_claim_all(old(sc), self.index as int, range) is Ok,
            spec_claim_all(old(sc), self.index as int, range)->Ok_0.0 == anc@,
            old(sc).spec_check_id(self.index as int, id@) is Ok,
            escapes_ok(anc@, old(sc).nodes.len() as int, old(sc).scopes.len() as int),
            forall|i: int| 0 <= i < anc.len() ==> (#[trigger] anc@[i]).variant < old(sc).variants.len(),
            node_ok(
                NodeData { kind, scope: self.index, serial_before: None, segment: None, rust: None },
                old(sc).nodes.len() + 1,
                old(sc).scopes.len() as int,
            ),
        ensures
            final(sc).wf(),
            out == Ok::<usize, SchemaError>(old(sc).nodes.len()),
            final(sc).nodes.len() == old(sc).nodes.len() + 1,
            final(sc).nodes@[old(sc).nodes.len() as int].kind == kind,
            final(sc).nodes@[old(sc).nodes.len() as int].scope == self.index,
            final(sc).node_ids@[old(sc).nodes.len() as int]@ == id@,
            crate::schema::connected(final(sc), range_node(old(sc), range), crate::schema::lift_target(anc@, old(sc).nodes.len())),
            final(sc).scopes.len() == old(sc).scopes.len(),
            forall|i: int| 0 <= i < old(sc).scopes.len() ==> (#[trigger] final(sc).scopes@[i]).escape == old(sc).scopes@[i].escape,
            final(sc).level_ids@ == old(sc).level_ids@.push((self.index, *id, Some(old(sc).nodes.len()))),
            final(sc).nodes@[old(sc).nodes.len() as int].rust is None,
            final(sc).ranges.allocs@ == allocs_after_claim_all(
                old(sc),
                self.index as int,
                range,
                anc@,
                spec_claim_all(old(sc), self.index as int, range)->Ok_0.1,
            ),
            crate::schema::values_frame(old(sc), final(sc)),
            ranges_after_claim_all(old(sc), final(sc), self.index as int, range),
    {
        let names = Scope::range_ancestry(sc, anc);
        let ghost before = *sc;
        let _ = sc.ranges.take_all(range.index, &names, self.index);
        let ghost after = *sc;
        assert(after.spec_check_id(self.index as int, id@) == before.spec_check_id(self.index as int, id@));
        let serial = sc.ranges.serial[range.index];
        proof {
            assert(serial < sc.nodes.len());
            assert(crate::schema::node_ok(sc.nodes@[serial as int], sc.nodes.len() as int, sc.scopes.len() as int));
        }
        let out = self.attach(sc, id, kind, String::new(), anc, serial);
        out
    }
}


impl Scope {
    /// Everything left of `range` as a byte array: it must
    /// start on a byte boundary and be whole bytes long.
    pub fn bytes(&self, sc: &mut Schema, id: &String, range: Range) -> (out: Result<usize, SchemaError>)
        requires
            old(sc).wf(),
            self.index < old(sc).scopes.len(),
            old(sc).nodes.len() + 1 < usize::MAX,
            range.index < old(sc).ranges.allocs.len(),
        ensures
            final(sc).wf(),
            match spec_bytes_kind(old(sc), self.index as int, id@, range) {
                Err(e) => out == Err::<usize, SchemaError>(e) && *final(sc) == *old(sc),
                Ok(k) => {
                    let n = old(sc).nodes.len();
                    let (anc, a) = spec_claim_all(old(sc), self.index as int, range)->Ok_0;
                    &&& crate::schema::connected(final(sc), range_node(old(sc), range), crate::schema::lift_target(anc, n))
                    &&& final(sc).ranges.allocs@ == allocs_after_claim_all(old(sc), self.index as int, range, anc, a)
                    &&& out == Ok::<usize, SchemaError>(n)
                    &&& final(sc).nodes.len() == n + 1
                    &&& final(sc).nodes@[n as int].kind == k
                    &&& final(sc).nodes@[n as int].scope == self.index
                    &&& final(sc).nodes@[n as int].rust is None
                    &&& final(sc).node_ids@[n as int]@ == id@
                    &&& final(sc).scopes.len() == old(sc).scopes.len()
                    &&& forall|i: int| 0 <= i < old(sc).scopes.len() ==> (#[trigger] final(sc).scopes@[i]).escape == old(sc).scopes@[i].escape
                    &&& final(sc).level_ids@ == old(sc).level_ids@.push((self.index, *id, Some(n)))
                    &&& crate::schema::values_frame(old(sc), final(sc))
                    &&& ranges_after_claim_all(old(sc), final(sc), self.index as int, range)
                    &&& k->FixedBytes_start * 8 == a.start.total()
                    &&& (k->FixedBytes_start + k->FixedBytes_len) * 8 == a.start.total() + a.avail.total()
                },
            },
    {
        let (anc, a) = match self.claim(sc, range) {
            Err(e) => {
                return Err(e);
            },
            Ok(x) => x,
        };
        if a.avail.is_zero() {
            return Err(SchemaError::RangeExhausted);
        }
        if a.start.bits != 0 {
            return Err(SchemaError::NotByteAligned);
        }
        if a.avail.bits != 0 {
            return Err(SchemaError::NotWholeBytes);
        }
        match sc.check_id(self.index, id) {
            Err(e) => {
                return Err(e);
            },
            Ok(_) => {},
        }
        self.claim_all_for(sc, id, range, &anc, NodeKind::FixedBytes { start: a.start.bytes, len: a.avail.bytes })
    }

    /// Everything left of `range` as an integer: its Rust type is
    /// the smallest that holds its bits (at most 64), and it is either a bit
    /// field inside one byte or whole bytes starting on a byte boundary.
    pub fn int_(&self, sc: &mut Schema, id: &String, range: Range, endian: Endian, signed: bool) -> (out: Result<
        usize,
        SchemaError,
    >)
        requires
            old(sc).wf(),
            self.index < old(sc).scopes.len(),
            old(sc).nodes.len() + 1 < usize::MAX,
            range.index < old(sc).ranges.allocs.len(),
        ensures
            final(sc).wf(),
            match spec_int_kind(old(sc), self.index as int, id@, range, endian, signed) {
                Err(e) => out == Err::<usize, SchemaError>(e) && *final(sc) == *old(sc),
                Ok(k) => {
                    let n = old(sc).nodes.len();
                    let (anc, a) = spec_claim_all(old(sc), self.index as int, range)->Ok_0;
                    &&& crate::schema::connected(final(sc), range_node(old(sc), range), crate::schema::lift_target(anc, n))
                    &&& final(sc).ranges.allocs@ == allocs_after_claim_all(old(sc), self.index as int, range, anc, a)
                    &&& out == Ok::<usize, SchemaError>(n)
                    &&& final(sc).nodes@[n as int].kind == k
                    &&& final(sc).nodes@[n as int].scope == self.index
                    &&& final(sc).node_ids@[n as int]@ == id@
                    &&& crate::schema::values_frame(old(sc), final(sc))
                    &&& ranges_after_claim_all(old(sc), final(sc), self.index as int, range)
                },
            },
    {
        let (anc, a) = match self.claim(sc, range) {
            Err(e) => {
                return Err(e);
            },
            Ok(x) => x,
        };
        if a.avail.is_zero() {
            return Err(SchemaError::RangeExhausted);
        }
        let t = match crate::node_int::int_type(a.avail, signed) {
            Err(e) => {
                return Err(e);
            },
            Ok(t) => t,
        };
        let code = match crate::node_int::int_code(a.start, a.avail, t.rust_bits / 8) {
            Err(e) => {
                return Err(e);
            },
            Ok(c) => c,
        };
        match sc.check_id(self.index, id) {
            Err(e) => {
                return Err(e);
            },
            Ok(_) => {},
        }
        self.claim_all_for(sc, id, range, &anc, NodeKind::Int { code, int_type: t, endian })
    }
}


/// Whether each input in `args` can feed node `n` made in scope `s`, checked in
/// order: its scope must be reachable, then its rust side free for `n` (or for
/// the enum it is lifted through).
pub open spec fn spec_inputs_check(sc: &Schema, s: int, args: Seq<usize>, n: usize) -> Result<(), SchemaError>
    decreases args.len(),
{
    if args.len() == 0 {
        Ok(())
    } else {
        match spec_inputs_check(sc, s, args.drop_last(), n) {
            Err(e) => Err(e),
            Ok(_) => {
                let a = args.last();
                match escape_path(sc.scopes@, s, sc.nodes@[a as int].scope as int) {
                    None => Err(SchemaError::NotInContainingScope),
                    Some(p) => crate::schema::spec_set_rust(sc, a, crate::schema::lift_target(p.reverse(), n)),
                }
            },
        }
    }
}

/// Whether a custom node of a type already known to be valid can be added:
/// the id is checked, then the inputs.
pub open spec fn spec_custom_body_check(sc: &Schema, s: int, id: Seq<char>, args: Seq<usize>) -> Result<(), SchemaError> {
    match sc.spec_check_id(s, id) {
        Err(e) => Err(e),
        Ok(_) => spec_inputs_check(sc, s, args, sc.nodes.len()),
    }
}

/// What `Scope::custom` adds: a custom node, or why not.  The type is checked
/// first, then the id, then the inputs.
pub open spec fn spec_custom_check(sc: &Schema, s: int, id: Seq<char>, rust_type: Seq<char>, args: Seq<usize>) -> Result<
    (),
    SchemaError,
> {
    if !crate::schema::rust_path_ok(rust_type) {
        Err(SchemaError::InvalidRustType)
    } else {
        spec_custom_body_check(sc, s, id, args)
    }
}

/// The custom node of scope `s` that `Scope::custom` added as node `n` to `old`,
/// giving `new`.
pub open spec fn custom_added(
    old: &Schema,
    new: &Schema,
    s: usize,
    id: Seq<char>,
    rust_type: Seq<char>,
    serial: Seq<usize>,
) -> bool {
    let n = old.nodes.len();
    &&& new.nodes@[n as int].kind == NodeKind::Custom
    &&& new.nodes@[n as int].scope == s
    &&& new.node_ids@[n as int]@ == id
    &&& new.node_text@[n as int]@ == rust_type
    &&& new.nodes.len() == n + 1
    &&& forall|m: int| 0 <= m < n ==> (#[trigger] new.nodes@[m]).kind == old.nodes@[m].kind
    &&& new.links.len() == old.links.len() + serial.len()
    &&& forall|k: int|
        0 <= k < serial.len() ==> (#[trigger] new.links@[old.links.len() + k]).user == n
            && new.links@[old.links.len() + k].primary == serial[k]
    &&& crate::schema::values_frame(old, new)
    &&& new.ranges == old.ranges
}

impl Scope {
    /// A node whose value custom code computes from the values of `serial`;
    /// the code itself is supplied where the module text is produced.
    /// `rust_type` must be a Rust type path.
    pub fn custom(&self, sc: &mut Schema, id: &String, rust_type: &String, serial: &Vec<usize>) -> (out: Result<
        usize,
        SchemaError,
    >)
        requires
            old(sc).wf(),
            self.index < old(sc).scopes.len(),
            old(sc).nodes.len() + 1 < usize::MAX,
            forall|i: int| 0 <= i < serial.len() ==> #[trigger] serial@[i] < old(sc).nodes.len(),
        ensures
            final(sc).wf(),
            match spec_custom_check(old(sc), self.index as int, id@, rust_type@, serial@) {
                Err(e) => out == Err::<usize, SchemaError>(e) && *final(sc) == *old(sc),
                Ok(_) => out == Ok::<usize, SchemaError>(old(sc).nodes.len()) && custom_added(
                    old(sc),
                    final(sc),
                    self.index,
                    id@,
                    rust_type@,
                    serial@,
                ),
            },
    {
        if !crate::schema::is_rust_path(rust_type.as_str()) {
            return Err(SchemaError::InvalidRustType);
        }
        self.add_custom(sc, id, rust_type, serial)
    }

    /// A custom node of type `rust_type`, which the caller knows is a Rust type.
    pub(crate) fn add_custom(&self, sc: &mut Schema, id: &String, rust_type: &String, serial: &Vec<usize>) -> (out: Result<
        usize,
        SchemaError,
    >)
        requires
            old(sc).wf(),
            self.index < old(sc).scopes.len(),
            old(sc).nodes.len() + 1 < usize::MAX,
            forall|i: int| 0 <= i < serial.len() ==> #[trigger] serial@[i] < old(sc).nodes.len(),
        ensures
            final(sc).wf(),
            match spec_custom_body_check(old(sc), self.index as int, id@, serial@) {
                Err(e) => out == Err::<usize, SchemaError>(e) && *final(sc) == *old(sc),
                Ok(_) => out == Ok::<usize, SchemaError>(old(sc).nodes.len()) && custom_added(
                    old(sc),
                    final(sc),
                    self.index,
                    id@,
                    rust_type@,
                    serial@,
                ),
            },
    {
        match sc.check_id(self.index, id) {
            Err(e) => {
                return Err(e);
            },
            Ok(_) => {},
        }
        let n = sc.nodes.len();
        // Check every input before changing anything
        let mut ancs: Vec<Vec<Escape>> = Vec::new();
        let mut targets: Vec<usize> = Vec::new();
        let mut i: usize = 0;
        while i < serial.len()
            invariant
                sc.wf(),
                *sc == *old(sc),
                sc.spec_check_id(self.index as int, id@) is Ok,
                n == sc.nodes.len(),
                self.index < sc.scopes.len(),
                i <= serial.len(),
                forall|k: int| 0 <= k < serial.len() ==> #[trigger] serial@[k] < sc.nodes.len(),
                ancs.len() == i,
                targets.len() == i,
                spec_inputs_check(sc, self.index as int, serial@.take(i as int), n) is Ok,
                forall|k: int|
                    0 <= k < i ==> escape_path(sc.scopes@, self.index as int, sc.nodes@[serial@[k] as int].scope as int)
                        == Some((#[trigger] ancs@[k])@.reverse()) && escapes_ok(
                        ancs@[k]@,
                        sc.nodes.len() as int,
                        sc.scopes.len() as int,
                    ) && targets@[k] == crate::schema::lift_target(ancs@[k]@, n)
                        && crate::schema::spec_set_rust(sc, serial@[k], targets@[k]) is Ok,
            decreases serial.len() - i,
        {
            let a = serial[i];
            proof {
                assert(serial@.take(i + 1).drop_last() =~= serial@.take(i as int));
                assert(serial@.take(i + 1).last() == a);
            }
            let anc = match self.get_ancestry_to(sc, sc.nodes[a].scope) {
                Err(e) => {
                    proof {
                        assert(spec_inputs_check(sc, self.index as int, serial@.take(i + 1), n) == Err::<(), SchemaError>(e));
                        lemma_inputs_check_prefix_err(sc, self.index as int, serial@, (i + 1) as int, n);
                    }
                    return Err(e);
                },
                Ok(x) => x,
            };
            proof {
                assert(anc@.reverse().reverse() =~= anc@);
            }
            let t = if anc.len() == 0 {
                n
            } else {
                anc[0].enum_node
            };
            match sc.can_set_rust(a, t) {
                Err(e) => {
                    proof {
                        assert(t == crate::schema::lift_target(anc@.reverse().reverse(), n));
                        assert(spec_inputs_check(sc, self.index as int, serial@.take(i + 1), n) == Err::<(), SchemaError>(e));
                        lemma_inputs_check_prefix_err(sc, self.index as int, serial@, (i + 1) as int, n);
                    }
                    return Err(e);
                },
                Ok(_) => {},
            }
            ancs.push(anc);
            targets.push(t);
            i = i + 1;
        }
        proof {
            assert(serial@.take(serial.len() as int) =~= serial@);
            assert forall|k: int, k2: int|
                0 <= k < serial.len() && 0 <= k2 < serial.len() && #[trigger] serial@[k] == #[trigger] serial@[k2]
                    implies targets@[k] == targets@[k2] by {
                assert(ancs@[k]@.reverse() == ancs@[k2]@.reverse());
                assert(ancs@[k]@.reverse().reverse() =~= ancs@[k]@);
                assert(ancs@[k2]@.reverse().reverse() =~= ancs@[k2]@);
            }
        }
        let n2 = sc.push_node(
            NodeData { kind: NodeKind::Custom, scope: self.index, serial_before: None, segment: None, rust: None },
            id.clone(),
            rust_type.clone(),
        );
        let _ = sc.take_id(self.index, id, Some(n2));
        proof {
            assert forall|k: int| 0 <= k < serial.len() implies crate::schema::spec_set_rust(
                &*sc,
                #[trigger] serial@[k],
                targets@[k],
            ) is Ok by {
                let _x = ancs@[k];
                assert(sc.nodes@[serial@[k] as int] == old(sc).nodes@[serial@[k] as int]);
            }
        }
        let ghost links0 = sc.links@;
        let ghost mid = *sc;
        let mut j: usize = 0;
        while j < serial.len()
            invariant
                sc.wf(),
                self.index < sc.scopes.len(),
                n == n2,
                sc.nodes.len() == n + 1,
                j <= serial.len(),
                ancs.len() == serial.len(),
                targets.len() == serial.len(),
                forall|k: int| 0 <= k < serial.len() ==> #[trigger] serial@[k] < n,
                crate::schema::same_shape(&mid, &*sc),
                sc.nodes@[n as int] == mid.nodes@[n as int],
                forall|k: int|
                    0 <= k < serial.len() ==> escapes_ok(
                        (#[trigger] ancs@[k])@,
                        sc.nodes.len() as int,
                        sc.scopes.len() as int,
                    ) && targets@[k] == crate::schema::lift_target(ancs@[k]@, n),
                forall|k: int|
                    j <= k < serial.len() ==> crate::schema::spec_set_rust(&*sc, #[trigger] serial@[k], targets@[k]) is Ok,
                forall|k: int, k2: int|
                    0 <= k < serial.len() && 0 <= k2 < serial.len() && #[trigger] serial@[k] == #[trigger] serial@[k2]
                        ==> targets@[k] == targets@[k2],
                sc.links.len() == links0.len() + j,
                forall|k: int| 0 <= k < links0.len() ==> sc.links@[k] == links0[k],
                forall|k: int|
                    0 <= k < j ==> (#[trigger] sc.links@[links0.len() + k]).user == n && sc.links@[links0.len()
                        + k].primary == serial@[k],
            decreases serial.len() - j,
        {
            let a = serial[j];
            let ghost before = *sc;
            let r = sc.lift_connect(self.index, &ancs[j], a, n2);
            assert(r is Ok);
            proof {
                assert forall|k: int| j < k < serial.len() implies crate::schema::spec_set_rust(
                    &*sc,
                    #[trigger] serial@[k],
                    targets@[k],
                ) is Ok by {
                    if serial@[k] != a {
                        assert(sc.nodes@[serial@[k] as int] == before.nodes@[serial@[k] as int]);
                    } else {
                        assert(targets@[k] == targets@[j as int]);
                    }
                }
            }
            j = j + 1;
        }
        Ok(n2)
    }
}

proof fn lemma_inputs_check_prefix_err(sc: &Schema, s: int, args: Seq<usize>, i: int, n: usize)
    requires
        0 <= i <= args.len(),
        spec_inputs_check(sc, s, args.take(i), n) is Err,
    ensures
        spec_inputs_check(sc, s, args, n) == spec_inputs_check(sc, s, args.take(i), n),
    decreases args.len() - i,
{
    if i < args.len() {
        assert(args.take(i + 1).drop_last() =~= args.take(i));
        lemma_inputs_check_prefix_err(sc, s, args, i + 1, n);
    } else {
        assert(args.take(i) =~= args);
    }
}


impl Scope {
    /// An integer turned into a `bool`: 0 is false, anything else true; true is
    /// written as 1.
    pub fn bool(&self, sc: &mut Schema, id: &String, serial: usize) -> (out: Result<usize, SchemaError>)
        requires
            old(sc).wf(),
            self.index < old(sc).scopes.len(),
            old(sc).nodes.len() + 1 < usize::MAX,
            serial < old(sc).nodes.len(),
        ensures
            final(sc).wf(),
            match spec_custom_body_check(old(sc), self.index as int, id@, seq![serial]) {
                Err(e) => out == Err::<usize, SchemaError>(e) && *final(sc) == *old(sc),
                Ok(_) => {
                    let n = old(sc).nodes.len();
                    &&& out == Ok::<usize, SchemaError>(n)
                    &&& final(sc).nodes@[n as int].kind == NodeKind::Custom
                    &&& final(sc).node_text@[n as int]@ == "bool"@
                    &&& final(sc).links.len() == old(sc).links.len() + 1
                    &&& final(sc).links@[old(sc).links.len() as int].user == n
                    &&& final(sc).links@[old(sc).links.len() as int].primary == serial
                },
            },
    {
        let mut args: Vec<usize> = Vec::new();
        args.push(serial);
        proof {
            assert(args@ =~= seq![serial]);
        }
        let ty = String::from_str("bool");
        let ghost l0 = sc.links@.len();
        let out = self.add_custom(sc, id, &ty, &args);
        proof {
            if out is Ok {
                assert(sc.links@[l0 + 0int] == sc.links@[l0 as int]);
            }
        }
        out
    }

    /// Bytes turned into a UTF-8 `String`; reading fails on invalid UTF-8
    /// (`Scope::string_utf8`).
    pub fn string_utf8(&self, sc: &mut Schema, id: &String, serial: usize) -> (out: Result<usize, SchemaError>)
        requires
            old(sc).wf(),
            self.index < old(sc).scopes.len(),
            old(sc).nodes.len() + 1 < usize::MAX,
            serial < old(sc).nodes.len(),
        ensures
            final(sc).wf(),
            match spec_custom_body_check(old(sc), self.index as int, id@, seq![serial]) {
                Err(e) => out == Err::<usize, SchemaError>(e) && *final(sc) == *old(sc),
                Ok(_) => {
                    let n = old(sc).nodes.len();
                    &&& out == Ok::<usize, SchemaError>(n)
                    &&& final(sc).nodes@[n as int].kind == NodeKind::Custom
                    &&& final(sc).node_text@[n as int]@ == "String"@
                    &&& final(sc).links.len() == old(sc).links.len() + 1
                    &&& final(sc).links@[old(sc).links.len() as int].user == n
                    &&& final(sc).links@[old(sc).links.len() as int].primary == serial
                },
            },
    {
        let mut args: Vec<usize> = Vec::new();
        args.push(serial);
        proof {
            assert(args@ =~= seq![serial]);
        }
        let ty = String::from_str("String");
        let ghost l0 = sc.links@.len();
        let out = self.add_custom(sc, id, &ty, &args);
        proof {
            if out is Ok {
                assert(sc.links@[l0 + 0int] == sc.links@[l0 as int]);
            }
        }
        out
    }

    /// Everything left of `range` as an IEEE 754 float, `f32` for 4 bytes and
    /// `f64` for 8: a byte array node `id__bytes` feeding a
    /// custom node `id`.
    pub fn float(&self, sc: &mut Schema, id: &String, range: Range, endian: Endian) -> (out: Result<usize, SchemaError>)
        requires
            old(sc).wf(),
            self.index < old(sc).scopes.len(),
            old(sc).nodes.len() + 2 < usize::MAX,
            range.index < old(sc).ranges.allocs.len(),
        ensures
            final(sc).wf(),
            match spec_bytes_kind(old(sc), self.index as int, id@ + "__bytes"@, range) {
                Err(e) => out == Err::<usize, SchemaError>(e) && *final(sc) == *old(sc),
                Ok(k) => {
                    let len = k->FixedBytes_len;
                    let ty = if len == 4 {
                        "f32"@
                    } else {
                        "f64"@
                    };
                    let n = old(sc).nodes.len();
                    if len != 4 && len != 8 {
                        out == Err::<usize, SchemaError>(SchemaError::UnsupportedFloatWidth) && *final(sc) == *old(sc)
                    } else if old(sc).spec_check_id(self.index as int, id@) is Err {
                        out == Err::<usize, SchemaError>(old(sc).spec_check_id(self.index as int, id@)->Err_0)
                            && *final(sc) == *old(sc)
                    } else {
                        &&& out == Ok::<usize, SchemaError>((n + 1) as usize)
                        &&& final(sc).nodes@[n + 1].kind == NodeKind::Custom
                        &&& final(sc).node_text@[n + 1]@ == ty
                        &&& final(sc).nodes@[n as int].kind == k
                        &&& final(sc).links@.last().user == n + 1
                        &&& final(sc).links@.last().primary == n
                        &&& crate::schema::values_frame(old(sc), final(sc))
                    }
                },
            },
    {
        let bid = crate::schema::joined(id, "__bytes");
        // Everything that can fail is checked before the schema changes
        let (_, a) = match self.claim(sc, range) {
            Err(e) => {
                return Err(e);
            },
            Ok(x) => x,
        };
        if a.avail.is_zero() {
            return Err(SchemaError::RangeExhausted);
        }
        if a.start.bits != 0 {
            return Err(SchemaError::NotByteAligned);
        }
        if a.avail.bits != 0 {
            return Err(SchemaError::NotWholeBytes);
        }
        match sc.check_id(self.index, &bid) {
            Err(e) => {
                return Err(e);
            },
            Ok(_) => {},
        }
        if a.avail.bytes != 4 && a.avail.bytes != 8 {
            return Err(SchemaError::UnsupportedFloatWidth);
        }
        match sc.check_id(self.index, id) {
            Err(e) => {
                return Err(e);
            },
            Ok(_) => {},
        }
        let ghost s0 = *sc;
        let b = match self.bytes(sc, &bid, range) {
            Err(e) => {
                return Err(e);
            },
            Ok(b) => b,
        };
        let len = match sc.nodes[b].kind {
            NodeKind::FixedBytes { len, .. } => len,
            _ => 0,
        };
        let ty = if len == 4 {
            String::from_str("f32")
        } else if len == 8 {
            String::from_str("f64")
        } else {
            return Err(SchemaError::UnsupportedFloatWidth);
        };
        proof {
            assert(bid@.len() == id@.len() + 7) by {
                reveal_strlit("__bytes");
            }
            crate::schema::lemma_id_free_frame(
                s0.scopes@,
                s0.level_ids@,
                sc.scopes@,
                sc.level_ids@,
                (self.index, bid, Some(b)),
                self.index as int,
                id@,
            );
            assert(crate::schema::escape_path(sc.scopes@, self.index as int, self.index as int) == Some(Seq::<Escape>::empty()));
            assert(Seq::<Escape>::empty().reverse() =~= Seq::<Escape>::empty());
            assert(seq![b].drop_last() =~= Seq::<usize>::empty());
            assert(sc.nodes@[b as int].scope == self.index);
            assert(sc.nodes@[b as int].rust is None);
            assert(sc.nodes@[b as int].kind is FixedBytes);
            assert(seq![b].last() == b);
            assert(spec_inputs_check(&*sc, self.index as int, Seq::<usize>::empty(), sc.nodes.len()) is Ok);
            assert(crate::schema::spec_set_rust(&*sc, b, crate::schema::lift_target(Seq::<Escape>::empty().reverse(), sc.nodes.len())) is Ok);
            assert(spec_inputs_check(&*sc, self.index as int, seq![b], sc.nodes.len()) is Ok);
            assert(sc.spec_check_id(self.index as int, id@) == s0.spec_check_id(self.index as int, id@));
        }
        let mut args: Vec<usize> = Vec::new();
        args.push(b);
        proof {
            assert(args@ =~= seq![b]);
        }
        let ghost links1 = sc.links@;
        let out = self.add_custom(sc, id, &ty, &args);
        proof {
            if out is Ok {
                assert(sc.links@[links1.len() + 0int] == sc.links@.last());
            }
        }
        out
    }
}


/// Whether `input` can feed a node numbered `user` made in scope `s`: its scope
/// must be reachable, then its rust side free.
pub open spec fn spec_feed(sc: &Schema, s: int, input: usize, user: usize) -> Result<(), SchemaError> {
    match escape_path(sc.scopes@, s, sc.nodes@[input as int].scope as int) {
        None => Err(SchemaError::NotInContainingScope),
        Some(p) => crate::schema::spec_set_rust(sc, input, crate::schema::lift_target(p.reverse(), user)),
    }
}

/// What `Scope::dynamic_bytes` checks, in order: the length is an integer, the
/// names, then the length input.
pub open spec fn spec_dynamic_bytes_check(sc: &Schema, s: int, id: Seq<char>, len: usize) -> Result<(), SchemaError> {
    if !(sc.nodes@[len as int].kind is Int) {
        Err(SchemaError::WrongNodeKind)
    } else {
        match sc.spec_check_serial(s, id) {
            Err(e) => Err(e),
            Ok(_) => spec_feed(sc, s, len, (sc.nodes.len() + 1) as usize),
        }
    }
}

/// What `Scope::enum_` checks, in order: the segment's name, the type name, the
/// id, then the tag input.
pub open spec fn spec_enum_check(sc: &Schema, s: int, id: Seq<char>, tag: usize, name: Seq<char>) -> Result<
    (),
    SchemaError,
> {
    match sc.spec_check_id(s, crate::schema::seg_name(id)) {
        Err(e) => Err(e),
        Ok(_) => if !rust_ident_ok(name) {
            Err(SchemaError::InvalidIdent)
        } else {
            match sc.spec_check_id(s, id) {
                Err(e) => Err(e),
                Ok(_) => spec_feed(sc, s, tag, (sc.nodes.len() + 1) as usize),
            }
        },
    }
}

/// What `Scope::dynamic_array` checks, in order: the length is an integer, the
/// segment's name, the element scope's serial root name, the id, then the
/// length input.
pub open spec fn spec_dynamic_array_check(sc: &Schema, s: int, id: Seq<char>, len: usize) -> Result<(), SchemaError> {
    if !(sc.nodes@[len as int].kind is Int) {
        Err(SchemaError::WrongNodeKind)
    } else {
        match sc.spec_check_id(s, crate::schema::seg_name(id)) {
            Err(e) => Err(e),
            Ok(_) => if !rust_ident_ok(id + "__scope__serial"@) {
                Err(SchemaError::InvalidIdent)
            } else {
                match sc.spec_check_id(s, id) {
                    Err(e) => Err(e),
                    Ok(_) => spec_feed(sc, s, len, (sc.nodes.len() + 2) as usize),
                }
            },
        }
    }
}

impl Scope {
    fn feed_check(&self, sc: &Schema, input: usize, user: usize) -> (out: Result<Vec<Escape>, SchemaError>)
        requires
            sc.wf(),
            self.index < sc.scopes.len(),
            input < sc.nodes.len(),
        ensures
            match spec_feed(sc, self.index as int, input, user) {
                Err(e) => out == Err::<Vec<Escape>, SchemaError>(e),
                Ok(_) => out is Ok && Some(out->Ok_0@.reverse()) == escape_path(
                    sc.scopes@,
                    self.index as int,
                    sc.nodes@[input as int].scope as int,
                ) && escapes_ok(out->Ok_0@, sc.nodes.len() as int, sc.scopes.len() as int)
                    && crate::schema::spec_set_rust(sc, input, crate::schema::lift_target(out->Ok_0@, user)) is Ok,
            },
    {
        let anc = match self.get_ancestry_to(sc, sc.nodes[input].scope) {
            Err(e) => {
                return Err(e);
            },
            Ok(a) => a,
        };
        proof {
            assert(anc@.reverse().reverse() =~= anc@);
        }
        let t = if anc.len() == 0 {
            user
        } else {
            anc[0].enum_node
        };
        match sc.can_set_rust(input, t) {
            Err(e) => Err(e),
            Ok(_) => Ok(anc),
        }
    }

    /// Adds a serial element fed by `input` (checked beforehand).
    fn add_serial_fed(&self, sc: &mut Schema, id: &String, kind: NodeKind, text: String, input: usize, anc: &Vec<Escape>) -> (out: usize)
        requires
            old(sc).wf(),
            self.index < old(sc).scopes.len(),
            old(sc).nodes.len() + 2 < usize::MAX,
            input < old(sc).nodes.len(),
            escapes_ok(anc@, old(sc).nodes.len() as int, old(sc).scopes.len() as int),
            old(sc).spec_check_serial(self.index as int, id@) is Ok,
            crate::schema::spec_set_rust(old(sc), input, crate::schema::lift_target(anc@, (old(sc).nodes.len() + 1) as usize)) is Ok,
            node_ok(
                NodeData { kind, scope: self.index, serial_before: None, segment: None, rust: None },
                old(sc).nodes.len() + 2,
                old(sc).scopes.len() as int,
            ),
        ensures
            final(sc).wf(),
            out == old(sc).nodes.len() + 1,
            final(sc).nodes.len() == old(sc).nodes.len() + 2,
            final(sc).nodes@[out as int].kind == kind,
            final(sc).nodes@[out as int].scope == self.index,
            final(sc).node_ids@[out as int]@ == id@,
            final(sc).node_text@[out as int] == text,
            final(sc).sub_segments@ == old(sc).sub_segments@.push((self.index, out)),
            final(sc).links@ == old(sc).links@.push(
                crate::schema::Link {
                    user: out,
                    primary: input,
                    redirect: if anc.len() == 0 {
                        None
                    } else {
                        Some(old(sc).scopes@[self.index as int].serial_root)
                    },
                },
            ),
            crate::schema::connected(final(sc), input, crate::schema::lift_target(anc@, out)),
            final(sc).scopes.len() == old(sc).scopes.len(),
            forall|i: int| 0 <= i < old(sc).scopes.len() ==> (#[trigger] final(sc).scopes@[i]).escape == old(sc).scopes@[i].escape,
            final(sc).variants@ == old(sc).variants@,
    {
        let n = match sc.add_serial(self.index, id, kind, text, true, true) {
            Ok(n) => n,
            Err(_) => {
                return 0;
            },
        };
        let r = sc.lift_connect(self.index, anc, input, n);
        assert(r is Ok);
        n
    }

    /// Bytes whose length the integer `len` gives.
    pub fn dynamic_bytes(&self, sc: &mut Schema, id: &String, len: usize) -> (out: Result<usize, SchemaError>)
        requires
            old(sc).wf(),
            self.index < old(sc).scopes.len(),
            old(sc).nodes.len() + 2 < usize::MAX,
            len < old(sc).nodes.len(),
        ensures
            final(sc).wf(),
            match spec_dynamic_bytes_check(old(sc), self.index as int, id@, len) {
                Err(e) => out == Err::<usize, SchemaError>(e) && *final(sc) == *old(sc),
                Ok(_) => {
                    let n = (old(sc).nodes.len() + 1) as usize;
                    &&& out == Ok::<usize, SchemaError>(n)
                    &&& final(sc).nodes@[n as int].kind == NodeKind::DynamicBytes
                    &&& final(sc).nodes@[n as int].scope == self.index
                    &&& final(sc).node_ids@[n as int]@ == id@
                    &&& final(sc).links@.last().user == n
                    &&& final(sc).links@.last().primary == len
                },
            },
    {
        match sc.nodes[len].kind {
            NodeKind::Int { .. } => {},
            _ => {
                return Err(SchemaError::WrongNodeKind);
            },
        }
        let seg_id = crate::schema::joined(id, "__serial_seg");
        match sc.check_id(self.index, &seg_id) {
            Err(e) => {
                return Err(e);
            },
            Ok(_) => {},
        }
        match sc.check_id(self.index, id) {
            Err(e) => {
                return Err(e);
            },
            Ok(_) => {},
        }
        let anc = match self.feed_check(sc, len, sc.nodes.len() + 1) {
            Err(e) => {
                return Err(e);
            },
            Ok(a) => a,
        };
        let n = self.add_serial_fed(sc, id, NodeKind::DynamicBytes, String::new(), len, &anc);
        Ok(n)
    }

    /// A Rust enum whose variant the value of `tag` chooses;
    /// `name` is its type name.
    pub fn enum_(&self, sc: &mut Schema, id: &String, tag: usize, name: &String) -> (out: Result<NodeEnum, SchemaError>)
        requires
            old(sc).wf(),
            self.index < old(sc).scopes.len(),
            old(sc).nodes.len() + 2 < usize::MAX,
            tag < old(sc).nodes.len(),
        ensures
            final(sc).wf(),
            match spec_enum_check(old(sc), self.index as int, id@, tag, name@) {
                Err(e) => out == Err::<NodeEnum, SchemaError>(e) && *final(sc) == *old(sc),
                Ok(_) => {
                    let n = (old(sc).nodes.len() + 1) as usize;
                    &&& out == Ok::<NodeEnum, SchemaError>(NodeEnum { node: n })
                    &&& final(sc).nodes@[n as int].kind == NodeKind::Enum
                    &&& final(sc).nodes@[n as int].scope == self.index
                    &&& final(sc).node_ids@[n as int]@ == id@
                    &&& final(sc).node_text@[n as int]@ == name@
                    &&& final(sc).links@.last().user == n
                    &&& final(sc).links@.last().primary == tag
                },
            },
    {
        let seg_id = crate::schema::joined(id, "__serial_seg");
        match sc.check_id(self.index, &seg_id) {
            Err(e) => {
                return Err(e);
            },
            Ok(_) => {},
        }
        if !crate::schema::is_rust_ident(name.as_str()) {
            return Err(SchemaError::InvalidIdent);
        }
        match sc.check_id(self.index, id) {
            Err(e) => {
                return Err(e);
            },
            Ok(_) => {},
        }
        let anc = match self.feed_check(sc, tag, sc.nodes.len() + 1) {
            Err(e) => {
                return Err(e);
            },
            Ok(a) => a,
        };
        let n = self.add_serial_fed(sc, id, NodeKind::Enum, name.clone(), tag, &anc);
        Ok(NodeEnum { node: n })
    }

    /// An array of elements of a new scope `id__scope`, as many as the integer
    /// `len` gives.  Elements can't use values of
    /// enclosing scopes.
    pub fn dynamic_array(&self, sc: &mut Schema, id: &String, len: usize) -> (out: Result<(usize, Scope), SchemaError>)
        requires
            old(sc).wf(),
            self.index < old(sc).scopes.len(),
            old(sc).nodes.len() + 3 < usize::MAX,
            len < old(sc).nodes.len(),
        ensures
            final(sc).wf(),
            match spec_dynamic_array_check(old(sc), self.index as int, id@, len) {
                Err(e) => out == Err::<(usize, Scope), SchemaError>(e) && *final(sc) == *old(sc),
                Ok(_) => {
                    let n = (old(sc).nodes.len() + 2) as usize;
                    let s = old(sc).scopes.len();
                    &&& out == Ok::<(usize, Scope), SchemaError>((n, Scope { index: s }))
                    &&& final(sc).nodes@[n as int].kind == (NodeKind::DynamicArray { element: s })
                    &&& final(sc).nodes@[n as int].scope == self.index
                    &&& final(sc).node_ids@[n as int]@ == id@
                    &&& final(sc).scopes.len() == s + 1
                    &&& final(sc).scopes@[s as int].escape is None
                    &&& final(sc).links@.last().user == n
                    &&& final(sc).links@.last().primary == len
                },
            },
    {
        match sc.nodes[len].kind {
            NodeKind::Int { .. } => {},
            _ => {
                return Err(SchemaError::WrongNodeKind);
            },
        }
        let seg_id = crate::schema::joined(id, "__serial_seg");
        match sc.check_id(self.index, &seg_id) {
            Err(e) => {
                return Err(e);
            },
            Ok(_) => {},
        }
        let scope_id = crate::schema::joined(id, "__scope");
        let scope_serial = crate::schema::joined(&scope_id, "__serial");
        proof {
            assert(scope_serial@ =~= id@ + "__scope__serial"@) by {
                reveal_strlit("__scope");
                reveal_strlit("__serial");
                reveal_strlit("__scope__serial");
            }
        }
        if !crate::schema::is_rust_ident(scope_serial.as_str()) {
            return Err(SchemaError::InvalidIdent);
        }
        match sc.check_id(self.index, id) {
            Err(e) => {
                return Err(e);
            },
            Ok(_) => {},
        }
        let anc = match self.feed_check(sc, len, sc.nodes.len() + 2) {
            Err(e) => {
                return Err(e);
            },
            Ok(a) => a,
        };
        let ghost s0 = *sc;
        let el = match sc.new_scope(&scope_id) {
            Ok(x) => x,
            Err(_) => {
                return Err(SchemaError::InvalidIdent);
            },
        };
        proof {
            crate::schema::lemma_id_free_fresh(s0.scopes@, s0.level_ids@, sc.scopes@, sc.level_ids@, self.index as int, id@);
            crate::schema::lemma_id_free_fresh(
                s0.scopes@,
                s0.level_ids@,
                sc.scopes@,
                sc.level_ids@,
                self.index as int,
                crate::schema::seg_name(id@),
            );
            assert(sc.nodes@[len as int] == s0.nodes@[len as int]);
        }
        let n = self.add_serial_fed(sc, id, NodeKind::DynamicArray { element: el }, String::new(), len, &anc);
        Ok((n, Scope { index: el }))
    }
}

/// An enum node of a schema.
#[derive(PartialEq, Eq, Structural, Clone, Copy, Debug)]
pub struct NodeEnum {
    pub node: usize,
}


/// An object (Rust struct) node of a schema.
#[derive(PartialEq, Eq, Structural, Clone, Copy, Debug)]
pub struct NodeObj {
    pub node: usize,
}

/// What `Scope::const_` checks, in order: the id is free, it is a Rust
/// identifier, the value's scope is reachable, and the value's rust side can
/// be taken: by the constant itself, or, for a value of an enclosing scope, by
/// the outermost enum the constant's scope escapes through.
pub open spec fn spec_const_check(sc: &Schema, s: int, id: Seq<char>, serial: usize) -> Result<(), SchemaError> {
    if !crate::schema::id_free(sc.scopes@, sc.level_ids@, s, id) {
        Err(SchemaError::IdTaken)
    } else if !rust_ident_ok(id) {
        Err(SchemaError::InvalidIdent)
    } else {
        match escape_path(sc.scopes@, s, sc.nodes@[serial as int].scope as int) {
            None => Err(SchemaError::NotInContainingScope),
            Some(p) => crate::schema::spec_set_rust(sc, serial, crate::schema::lift_target(p.reverse(), sc.nodes.len())),
        }
    }
}

/// What `NodeObj::field` checks, in order: the name is free in the object's
/// scope, it is a Rust identifier, then the value input.
pub open spec fn spec_field_check(sc: &Schema, obj: usize, name: Seq<char>, serial: usize) -> Result<(), SchemaError> {
    let s = sc.nodes@[obj as int].scope as int;
    if !crate::schema::id_free(sc.scopes@, sc.level_ids@, s, name) {
        Err(SchemaError::IdTaken)
    } else if !rust_ident_ok(name) {
        Err(SchemaError::InvalidIdent)
    } else {
        spec_feed(sc, s, serial, sc.nodes.len())
    }
}

impl Scope {
    /// On read, checks that `serial`'s value equals the Rust expression `value`;
    /// on write, feeds `value`.  The id names no node.
    pub fn const_(&self, sc: &mut Schema, id: &String, serial: usize, value: &String) -> (out: Result<(), SchemaError>)
        requires
            old(sc).wf(),
            self.index < old(sc).scopes.len(),
            old(sc).nodes.len() + 1 < usize::MAX,
            serial < old(sc).nodes.len(),
        ensures
            final(sc).wf(),
            match spec_const_check(old(sc), self.index as int, id@, serial) {
                Err(e) => out == Err::<(), SchemaError>(e) && *final(sc) == *old(sc),
                Ok(_) => {
                    let n = old(sc).nodes.len();
                    let p = escape_path(old(sc).scopes@, self.index as int, old(sc).nodes@[serial as int].scope as int)->Some_0;
                    &&& out is Ok
                    &&& final(sc).nodes@[n as int].kind == NodeKind::Const
                    &&& final(sc).nodes@[n as int].scope == self.index
                    &&& final(sc).node_ids@[n as int]@ == id@
                    &&& final(sc).node_text@[n as int]@ == value@
                    &&& final(sc).rust_extra_roots@ == old(sc).rust_extra_roots@.push((self.index, n))
                    &&& crate::schema::connected(final(sc), serial, crate::schema::lift_target(p.reverse(), n))
                    &&& final(sc).links@.last() == (crate::schema::Link {
                        user: n,
                        primary: serial,
                        redirect: if p.len() == 0 {
                            None
                        } else {
                            Some(old(sc).scopes@[self.index as int].serial_root)
                        },
                    })
                    &&& p.len() > 0 ==> crate::schema::has_pair(final(sc).external_deps@, p.reverse()[0].enum_node, serial)
                    &&& crate::schema::values_frame(old(sc), final(sc))
                    &&& final(sc).ranges == old(sc).ranges
                },
            },
    {
        if !sc.id_is_free(self.index, id) {
            return Err(SchemaError::IdTaken);
        }
        if !crate::schema::is_rust_ident(id.as_str()) {
            return Err(SchemaError::InvalidIdent);
        }
        let n = sc.nodes.len();
        let anc = match self.get_ancestry_to(sc, sc.nodes[serial].scope) {
            Err(e) => {
                return Err(e);
            },
            Ok(a) => a,
        };
        let target = if anc.len() > 0 {
            anc[0].enum_node
        } else {
            n
        };
        match sc.can_set_rust(serial, target) {
            Err(e) => {
                return Err(e);
            },
            Ok(_) => {},
        }
        let n2 = sc.push_node(
            NodeData { kind: NodeKind::Const, scope: self.index, serial_before: None, segment: None, rust: None },
            id.clone(),
            value.clone(),
        );
        let _ = sc.take_id(self.index, id, None);
        let ghost before = sc.rust_extra_roots@;
        sc.rust_extra_roots.push((self.index, n2));
        proof {
            assert forall|i: int| 0 <= i < sc.rust_extra_roots.len() implies (#[trigger] sc.rust_extra_roots@[i]).0
                < sc.scopes.len() && sc.rust_extra_roots@[i].1 < sc.nodes.len() by {
                if i < before.len() {
                    assert(sc.rust_extra_roots@[i] == before[i]);
                }
            }
        }
        let r = sc.lift_connect(self.index, &anc, serial, n2);
        assert(r is Ok);
        Ok(())
    }

    /// A Rust struct named `name`; its fields are added with
    /// `NodeObj::field`.
    pub fn object(&self, sc: &mut Schema, id: &String, name: &String) -> (out: Result<NodeObj, SchemaError>)
        requires
            old(sc).wf(),
            self.index < old(sc).scopes.len(),
            old(sc).nodes.len() + 1 < usize::MAX,
        ensures
            final(sc).wf(),
            !rust_ident_ok(name@) ==> out == Err::<NodeObj, SchemaError>(SchemaError::InvalidIdent) && *final(sc)
                == *old(sc),
            rust_ident_ok(name@) ==> match old(sc).spec_check_id(self.index as int, id@) {
                Err(e) => out == Err::<NodeObj, SchemaError>(e) && *final(sc) == *old(sc),
                Ok(_) => {
                    let n = old(sc).nodes.len();
                    &&& out == Ok::<NodeObj, SchemaError>(NodeObj { node: n })
                    &&& final(sc).nodes@ == old(sc).nodes@.push(
                        NodeData { kind: NodeKind::Obj, scope: self.index, serial_before: None, segment: None, rust: None },
                    )
                    &&& final(sc).node_ids@[n as int]@ == id@
                    &&& final(sc).node_text@[n as int]@ == name@
                    &&& final(sc).level_ids@ == old(sc).level_ids@.push((self.index, *id, Some(n)))
                },
            },
    {
        if !crate::schema::is_rust_ident(name.as_str()) {
            return Err(SchemaError::InvalidIdent);
        }
        match sc.check_id(self.index, id) {
            Err(e) => {
                return Err(e);
            },
            Ok(_) => {},
        }
        let n = sc.push_node(
            NodeData { kind: NodeKind::Obj, scope: self.index, serial_before: None, segment: None, rust: None },
            id.clone(),
            name.clone(),
        );
        let _ = sc.take_id(self.index, id, Some(n));
        Ok(NodeObj { node: n })
    }
}

impl NodeObj {
    /// Adds field `name` of the struct, holding the value of `serial`.
    /// The name is taken as an id of the object's scope.
    pub fn field(&self, sc: &mut Schema, name: &String, serial: usize) -> (out: Result<(), SchemaError>)
        requires
            old(sc).wf(),
            self.node < old(sc).nodes.len(),
            old(sc).nodes@[self.node as int].kind is Obj,
            old(sc).nodes.len() + 1 < usize::MAX,
            serial < old(sc).nodes.len(),
        ensures
            final(sc).wf(),
            match spec_field_check(old(sc), self.node, name@, serial) {
                Err(e) => out == Err::<(), SchemaError>(e) && *final(sc) == *old(sc),
                Ok(_) => {
                    let n = old(sc).nodes.len();
                    &&& out is Ok
                    &&& final(sc).nodes@[n as int].kind == (NodeKind::ObjField { obj: self.node })
                    &&& final(sc).node_text@[n as int]@ == name@
                    &&& final(sc).fields@ == old(sc).fields@.push((self.node, n))
                    &&& final(sc).links@.last().user == n
                    &&& final(sc).links@.last().primary == serial
                    &&& crate::schema::values_frame(old(sc), &(Schema { fields: old(sc).fields, ..*final(sc) }))
                    &&& final(sc).ranges == old(sc).ranges
                },
            },
    {
        let s = sc.nodes[self.node].scope;
        proof {
            assert(node_ok(sc.nodes@[self.node as int], sc.nodes.len() as int, sc.scopes.len() as int));
        }
        if !sc.id_is_free(s, name) {
            return Err(SchemaError::IdTaken);
        }
        if !crate::schema::is_rust_ident(name.as_str()) {
            return Err(SchemaError::InvalidIdent);
        }
        let n = sc.nodes.len();
        let sco = Scope { index: s };
        let anc = match sco.feed_check(sc, serial, n) {
            Err(e) => {
                return Err(e);
            },
            Ok(a) => a,
        };
        let _ = sc.take_id(s, name, None);
        let n2 = sc.push_node(
            NodeData { kind: NodeKind::ObjField { obj: self.node }, scope: s, serial_before: None, segment: None, rust: None },
            name.clone(),
            name.clone(),
        );
        let ghost before = sc.fields@;
        sc.fields.push((self.node, n2));
        proof {
            assert forall|i: int| 0 <= i < sc.fields.len() implies (#[trigger] sc.fields@[i]).0 < sc.nodes.len()
                && sc.fields@[i].1 < sc.nodes.len() by {
                if i < before.len() {
                    assert(sc.fields@[i] == before[i]);
                }
            }
        }
        let r = sc.lift_connect(s, &anc, serial, n2);
        assert(r is Ok);
        Ok(())
    }
}

/// Whether the enum node `e` has a default variant.
pub open spec fn has_default(sc: &Schema, e: usize) -> bool {
    exists|i: int| 0 <= i < sc.variants.len() && (#[trigger] sc.variants@[i]).enum_node == e && sc.variants@[i].default_tag is Some
}

impl NodeEnum {
    fn link_variant(&self, sc: &mut Schema, element: usize, default_tag: Option<usize>, name: &String, tag: &String) -> (out: usize)
        requires
            old(sc).wf(),
            self.node < old(sc).nodes.len(),
            element == old(sc).scopes.len() - 1,
            old(sc).scopes@[element as int].escape is None,
            old(sc).nodes@[self.node as int].scope < element,
            crate::schema::opt_lt(default_tag, old(sc).nodes.len() as int),
        ensures
            final(sc).wf(),
            out == old(sc).variants.len(),
            final(sc).variants@ == old(sc).variants@.push(crate::schema::Variant { enum_node: self.node, element, default_tag }),
            final(sc).variant_names@ == old(sc).variant_names@.push(*name),
            final(sc).scopes@ == old(sc).scopes@.update(
                element as int,
                ScopeData {
                    escape: Some(Escape { enum_node: self.node, variant: out, parent: old(sc).nodes@[self.node as int].scope }),
                    ..old(sc).scopes@[element as int]
                },
            ),
            final(sc).nodes@ == old(sc).nodes@,
            final(sc).level_ids@ == old(sc).level_ids@,
            final(sc).serial_extra_roots@ == old(sc).serial_extra_roots@,
            final(sc).variant_tags@ == old(sc).variant_tags@.push(*tag),
            *final(sc) == (Schema {
                variants: final(sc).variants,
                variant_names: final(sc).variant_names,
                variant_tags: final(sc).variant_tags,
                scopes: final(sc).scopes,
                ..*old(sc)
            }),
    {
        let v = sc.variants.len();
        sc.variants.push(crate::schema::Variant { enum_node: self.node, element, default_tag });
        sc.variant_names.push(name.clone());
        sc.variant_tags.push(tag.clone());
        let parent = sc.nodes[self.node].scope;
        let mut d = sc.scopes[element];
        d.escape = Some(Escape { enum_node: self.node, variant: v, parent });
        sc.scopes.set(element, d);
        proof {
            assert forall|i: int| 0 <= i < sc.scopes.len() implies scope_ok(
                #[trigger] sc.scopes@[i],
                i,
                sc.nodes.len() as int,
                sc.variants.len() as int,
            ) by {
                if i != element {
                    assert(scope_ok(old(sc).scopes@[i], i, sc.nodes.len() as int, old(sc).variants.len() as int));
                }
            }
            assert forall|i: int| 0 <= i < sc.variants.len() implies (#[trigger] sc.variants@[i]).enum_node < sc.nodes.len()
                && sc.variants@[i].element < sc.scopes.len() && opt_lt(sc.variants@[i].default_tag, sc.nodes.len() as int) by {
                if i < v {
                    assert(sc.variants@[i] == old(sc).variants@[i]);
                }
            }
        }
        v
    }

    /// A variant named `variant_name`, matched when the tag equals the Rust
    /// pattern `tag`; its value is the rust root of the returned new scope
    /// `id`, which can use values of the enum's scope.
    pub fn variant(&self, sc: &mut Schema, id: &String, variant_name: &String, tag: &String) -> (out: Result<Scope, SchemaError>)
        requires
            old(sc).wf(),
            self.node < old(sc).nodes.len(),
            old(sc).nodes.len() + 1 < usize::MAX,
        ensures
            final(sc).wf(),
            !(old(sc).nodes@[self.node as int].kind is Enum) ==> out == Err::<Scope, SchemaError>(SchemaError::WrongNodeKind)
                && *final(sc) == *old(sc),
            old(sc).nodes@[self.node as int].kind is Enum ==> {
                if !rust_ident_ok(id@ + "__serial"@) || !rust_ident_ok(variant_name@) {
                    out == Err::<Scope, SchemaError>(SchemaError::InvalidIdent) && *final(sc) == *old(sc)
                } else {
                    let s = old(sc).scopes.len();
                    &&& out == Ok::<Scope, SchemaError>(Scope { index: s })
                    &&& final(sc).variants@ == old(sc).variants@.push(
                        crate::schema::Variant { enum_node: self.node, element: s, default_tag: None },
                    )
                    &&& final(sc).scopes@[s as int].escape == Some(
                        Escape { enum_node: self.node, variant: old(sc).variants.len(), parent: old(sc).nodes@[self.node as int].scope },
                    )
                    &&& final(sc).variant_names@ == old(sc).variant_names@.push(*variant_name)
                    &&& final(sc).variant_tags@ == old(sc).variant_tags@.push(*tag)
                    &&& final(sc).links@ == old(sc).links@
                    &&& final(sc).ranges == old(sc).ranges
                    &&& final(sc).fields@ == old(sc).fields@
                    &&& final(sc).delimiters@ == old(sc).delimiters@
                    &&& final(sc).top_scopes@ == old(sc).top_scopes@
                    &&& final(sc).imports@ == old(sc).imports@
                    &&& final(sc).mods@ == old(sc).mods@
                    &&& final(sc).type_attrs@ == old(sc).type_attrs@
                }
            },
    {
        match sc.nodes[self.node].kind {
            NodeKind::Enum => {},
            _ => {
                return Err(SchemaError::WrongNodeKind);
            },
        }
        let serial_id = crate::schema::joined(id, "__serial");
        if !crate::schema::is_rust_ident(serial_id.as_str()) {
            return Err(SchemaError::InvalidIdent);
        }
        if !crate::schema::is_rust_ident(variant_name.as_str()) {
            return Err(SchemaError::InvalidIdent);
        }
        proof {
            assert(node_ok(sc.nodes@[self.node as int], sc.nodes.len() as int, sc.scopes.len() as int));
        }
        let el = match sc.new_scope(id) {
            Ok(x) => x,
            Err(_) => {
                return Err(SchemaError::InvalidIdent);
            },
        };
        self.link_variant(sc, el, None, variant_name, tag);
        Ok(Scope { index: el })
    }

    /// The variant taken for any other tag value: a new
    /// scope `id` for its value and a node `id__tag` standing for the tag, which
    /// nodes of the variant can use (and must, to write it back).
    pub fn default(&self, sc: &mut Schema, id: &String, variant_name: &String) -> (out: Result<(Scope, usize), SchemaError>)
        requires
            old(sc).wf(),
            self.node < old(sc).nodes.len(),
            old(sc).nodes.len() + 2 < usize::MAX,
        ensures
            final(sc).wf(),
            !(old(sc).nodes@[self.node as int].kind is Enum) ==> out == Err::<(Scope, usize), SchemaError>(
                SchemaError::WrongNodeKind,
            ) && *final(sc) == *old(sc),
            old(sc).nodes@[self.node as int].kind is Enum ==> {
                if !rust_ident_ok(id@ + "__serial"@) || !rust_ident_ok(id@ + "__tag"@) || !rust_ident_ok(variant_name@) {
                    out == Err::<(Scope, usize), SchemaError>(SchemaError::InvalidIdent) && *final(sc) == *old(sc)
                } else if has_default(old(sc), self.node) {
                    out == Err::<(Scope, usize), SchemaError>(SchemaError::DefaultVariantAlreadySet) && *final(sc) == *old(sc)
                } else {
                    let s = old(sc).scopes.len();
                    let dummy = (old(sc).nodes.len() + 1) as usize;
                    &&& out == Ok::<(Scope, usize), SchemaError>((Scope { index: s }, dummy))
                    &&& final(sc).nodes@[dummy as int].kind == NodeKind::EnumDummy
                    &&& final(sc).nodes@[dummy as int].scope == s
                    &&& final(sc).variants@ == old(sc).variants@.push(
                        crate::schema::Variant { enum_node: self.node, element: s, default_tag: Some(dummy) },
                    )
                    &&& final(sc).serial_extra_roots@ == old(sc).serial_extra_roots@.push((s, dummy))
                    &&& final(sc).scopes@[s as int].escape == Some(
                        Escape { enum_node: self.node, variant: old(sc).variants.len(), parent: old(sc).nodes@[self.node as int].scope },
                    )
                }
            },
    {
        match sc.nodes[self.node].kind {
            NodeKind::Enum => {},
            _ => {
                return Err(SchemaError::WrongNodeKind);
            },
        }
        let serial_id = crate::schema::joined(id, "__serial");
        if !crate::schema::is_rust_ident(serial_id.as_str()) {
            return Err(SchemaError::InvalidIdent);
        }
        let dummy_id = crate::schema::joined(id, "__tag");
        if !crate::schema::is_rust_ident(dummy_id.as_str()) {
            return Err(SchemaError::InvalidIdent);
        }
        if !crate::schema::is_rust_ident(variant_name.as_str()) {
            return Err(SchemaError::InvalidIdent);
        }
        let mut i: usize = 0;
        while i < sc.variants.len()
            invariant
                i <= sc.variants.len(),
                sc.wf(),
                *sc == *old(sc),
                self.node < sc.nodes.len(),
                sc.nodes@[self.node as int].kind is Enum,
                serial_id@ == id@ + "__serial"@,
                dummy_id@ == id@ + "__tag"@,
                rust_ident_ok(serial_id@),
                rust_ident_ok(dummy_id@),
                rust_ident_ok(variant_name@),
                forall|k: int| 0 <= k < i ==> !((#[trigger] sc.variants@[k]).enum_node == self.node && sc.variants@[k].default_tag is Some),
            decreases sc.variants.len() - i,
        {
            if sc.variants[i].enum_node == self.node && sc.variants[i].default_tag.is_some() {
                return Err(SchemaError::DefaultVariantAlreadySet);
            }
            i = i + 1;
        }
        proof {
            assert(node_ok(sc.nodes@[self.node as int], sc.nodes.len() as int, sc.scopes.len() as int));
        }
        let el = match sc.new_scope(id) {
            Ok(x) => x,
            Err(_) => {
                return Err(SchemaError::InvalidIdent);
            },
        };
        let dummy = sc.push_node(
            NodeData { kind: NodeKind::EnumDummy, scope: el, serial_before: None, segment: None, rust: None },
            dummy_id.clone(),
            String::new(),
        );
        sc.level_ids.push((el, dummy_id, None));
        let ghost before = sc.serial_extra_roots@;
        sc.serial_extra_roots.push((el, dummy));
        proof {
            assert forall|i: int| 0 <= i < sc.serial_extra_roots.len() implies (#[trigger] sc.serial_extra_roots@[i]).0
                < sc.scopes.len() && sc.serial_extra_roots@[i].1 < sc.nodes.len() by {
                if i < before.len() {
                    assert(sc.serial_extra_roots@[i] == before[i]);
                }
            }
            assert forall|i: int| 0 <= i < sc.level_ids.len() implies (#[trigger] sc.level_ids@[i]).0 < sc.scopes.len()
                && opt_lt(sc.level_ids@[i].2, sc.nodes.len() as int) by {
                if i < sc.level_ids.len() - 1 {
                    assert(sc.level_ids@[i] == sc.level_ids@.drop_last()[i]);
                }
            }
        }
        let empty = String::new();
        self.link_variant(sc, el, Some(dummy), variant_name, &empty);
        Ok((Scope { index: el }, dummy))
    }
}


impl NodeObj {
    /// Adds a line like `#[derive(Clone)]` before the struct's definition.
    pub fn add_type_attrs(&self, sc: &mut Schema, attrs: String)
        ensures
            final(sc).type_attrs@ == old(sc).type_attrs@.push((self.node, attrs)),
            *final(sc) == (Schema { type_attrs: final(sc).type_attrs, ..*old(sc) }),
    {
        sc.add_type_attrs(self.node, attrs);
    }
}

impl NodeEnum {
    /// Adds a line like `#[derive(Clone)]` before the enum's definition.
    pub fn add_type_attrs(&self, sc: &mut Schema, attrs: String)
        ensures
            final(sc).type_attrs@ == old(sc).type_attrs@.push((self.node, attrs)),
            *final(sc) == (Schema { type_attrs: final(sc).type_attrs, ..*old(sc) }),
    {
        sc.add_type_attrs(self.node, attrs);
    }
}


/// A byte array takes exactly the part of its range it claimed: it starts
/// where that part starts and ends where that part ends (both on byte
/// boundaries).
pub proof fn lemma_bytes_is_claimed_part(sc: &Schema, s: int, id: Seq<char>, r: Range)
    ensures
        spec_bytes_kind(sc, s, id, r) matches Ok(k) ==> {
            let a = spec_claim_all(sc, s, r)->Ok_0.1;
            &&& k is FixedBytes
            &&& k->FixedBytes_start * 8 == a.start.total()
            &&& (k->FixedBytes_start + k->FixedBytes_len) * 8 == a.start.total() + a.avail.total()
        },
{
}


/// An integer takes exactly the part of its range it claimed (see
/// `lemma_int_code_covers_part` for how its code covers that part).
pub proof fn lemma_int_is_claimed_part(sc: &Schema, s: int, id: Seq<char>, r: Range, endian: Endian, signed: bool)
    ensures
        spec_int_kind(sc, s, id, r, endian, signed) matches Ok(k) ==> {
            let a = spec_claim_all(sc, s, r)->Ok_0.1;
            &&& k is Int
            &&& k->Int_int_type.signed == signed
            &&& k->Int_int_type.rust_bits >= a.avail.total()
            &&& match k->Int_code {
                crate::node_int::IntCode::Bits { byte, shift, .. } => byte * 8 + shift == a.start.total()
                    && a.avail.bytes == 0,
                crate::node_int::IntCode::Bytes { start, len, .. } => start * 8 == a.start.total() && (start + len)
                    * 8 == a.start.total() + a.avail.total(),
            }
        },
{
    let a = spec_claim_all(sc, s, r)->Ok_0.1;
    if spec_int_kind(sc, s, id, r, endian, signed) is Ok {
        let t = crate::node_int::spec_int_type(a.avail, signed)->Some_0;
        crate::node_int::lemma_int_code_covers_part(a.start, a.avail, (t.rust_bits / 8) as usize);
        crate::node_int::lemma_int_type_fits(a.avail, signed);
    }
}

} // verus!
