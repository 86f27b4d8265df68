//! The schema graph: scopes, nodes and the connections between them, held as
//! flat tables indexed by number.
//!
//! A `Schema` owns everything; `Scope`, `Range` and the node handles of the
//! builder API are indices into it.  Every table only grows, so an index once
//! handed out stays valid.
use vstd::prelude::*;
use crate::bvec::BVec;
use crate::error::SchemaError;
use crate::node_int::{Endian, IntCode, IntType};
use crate::range::Ranges;

verus! {

// ## Outside checks on names
/// Whether `s` parses as a Rust identifier, as `syn::parse_str::<syn::Ident>`
/// decides (keywords do not).
pub uninterp spec fn rust_ident_ok(s: Seq<char>) -> bool;

/// Whether `s` parses as a Rust path, as `syn::parse_str::<syn::Path>` decides.
pub uninterp spec fn rust_path_ok(s: Seq<char>) -> bool;

/// Calls `syn::parse_str::<syn::Ident>` on `s`; the contract claims only that
/// the answer is the named result `rust_ident_ok` of the text.
#[verifier::external_body]
pub(crate) fn is_rust_ident(s: &str) -> (out: bool)
    ensures
        out == rust_ident_ok(s@),
{
    syn::parse_str::<syn::Ident>(s).is_ok()
}

/// Calls `syn::parse_str::<syn::Path>` on `s`; the contract claims only that the
/// answer is the named result `rust_path_ok` of the text.
#[verifier::external_body]
pub(crate) fn is_rust_path(s: &str) -> (out: bool)
    ensures
        out == rust_path_ok(s@),
{
    syn::parse_str::<syn::Path>(s).is_ok()
}

// ## Tables
/// What a node is, with the facts about it that are plain values.
#[derive(PartialEq, Eq, Structural, Clone, Copy, Debug)]
pub enum NodeKind {
    /// The serial end of a scope (the stream).
    Serial,
    /// One segment of a scope's serial data, in order.
    SerialSegment,
    /// A fixed number of bytes read/written as one block.
    FixedRange { len: usize },
    /// A byte array taken from a fixed range.
    FixedBytes { start: usize, len: usize },
    /// An integer or bit field taken from a fixed range.
    Int { code: IntCode, int_type: IntType, endian: Endian },
    /// Padding up to the next multiple of `alignment` (after adding `shift`).
    Align { shift: usize, alignment: usize },
    /// Bytes whose length an earlier integer gives.
    DynamicBytes,
    /// Bytes up to a delimiter (see the delimiter table).
    DelimitedBytes,
    /// Bytes up to the end of the data.
    RemainingBytes,
    /// An array of elements of the scope `element`, its length given by an
    /// earlier integer.
    DynamicArray { element: usize },
    /// A Rust enum chosen by a tag (the type name is the node's text).
    Enum,
    /// The tag value of a default enum variant.
    EnumDummy,
    /// A value checked on read and fed on write (the value is the node's text).
    Const,
    /// A value computed by custom code from its inputs (the Rust type is the
    /// node's text).
    Custom,
    /// A Rust struct (the type name is the node's text).
    Obj,
    /// A field of the struct `obj` (the field name is the node's text).
    ObjField { obj: usize },
}

/// The plain data of a node.
#[derive(PartialEq, Eq, Structural, Clone, Copy, Debug)]
pub struct NodeData {
    pub kind: NodeKind,
    /// The scope the node belongs to.
    pub scope: usize,
    /// The serial element read/written just before this one in the scope.
    pub serial_before: Option<usize>,
    /// The node's own serial segment (for a segment: the scope's serial root).
    pub segment: Option<usize>,
    /// The node consuming this node's value on the rust side (for all kinds
    /// but fixed ranges, which keep a list in `range_rust`).
    pub rust: Option<usize>,
}

/// How a scope can escape to an enclosing scope: through variant
/// `variant` of enum node `enum_node`, which lives in scope `parent`.
#[derive(PartialEq, Eq, Structural, Clone, Copy, Debug)]
pub struct Escape {
    pub enum_node: usize,
    pub variant: usize,
    pub parent: usize,
}

/// The plain data of a scope.
#[derive(PartialEq, Eq, Structural, Clone, Copy, Debug)]
pub struct ScopeData {
    pub serial_root: usize,
    pub rust_root: Option<usize>,
    pub escape: Option<Escape>,
    pub has_external_deps: bool,
}

/// A serial-side input of a node: the node whose value it uses, and the node the
/// dependency really goes to when the value comes from an enclosing scope.
#[derive(PartialEq, Eq, Structural, Clone, Copy, Debug)]
pub struct Link {
    pub user: usize,
    pub primary: usize,
    pub redirect: Option<usize>,
}

/// A variant of an enum node: its element scope, and for the default variant
/// the node standing for the unmatched tag.
#[derive(PartialEq, Eq, Structural, Clone, Copy, Debug)]
pub struct Variant {
    pub enum_node: usize,
    pub element: usize,
    pub default_tag: Option<usize>,
}

/// Which code the generator produces.
pub struct GenerateConfig {
    /// Generate read methods (async or otherwise)
    pub read: bool,
    /// Generate write methods (async or otherwise)
    pub write: bool,
    /// Generate sync (blocking, non-async) methods
    pub sync_: bool,
    /// Generate async (non-blocking) methods
    pub async_: bool,
    /// Errors are a single pointer with no allocations.
    pub low_heap: bool,
}

impl Default for GenerateConfig {
    fn default() -> (out: GenerateConfig)
        ensures
            !out.read && !out.write && !out.sync_ && !out.async_ && !out.low_heap,
    {
        GenerateConfig { read: false, write: false, sync_: false, async_: false, low_heap: false }
    }
}

/// One function of the generated module for each top scope: reading or
/// writing, blocking or async.
#[derive(PartialEq, Eq, Structural, Clone, Copy, Debug)]
pub struct Method {
    pub async_: bool,
    pub write: bool,
}

/// The functions of one kind (blocking or async) that `c` asks for: read, then
/// write.
pub open spec fn methods_of(c: GenerateConfig, async_: bool) -> Seq<Method> {
    if (async_ && c.async_) || (!async_ && c.sync_) {
        (if c.read {
            seq![Method { async_, write: false }]
        } else {
            Seq::empty()
        }) + (if c.write {
            seq![Method { async_, write: true }]
        } else {
            Seq::empty()
        })
    } else {
        Seq::empty()
    }
}

impl GenerateConfig {
    /// The functions generated for each top scope, in order: the blocking
    /// ones, then the async ones, each reading before writing.
    pub fn methods(&self) -> (out: Vec<Method>)
        ensures
            out@ == methods_of(*self, false) + methods_of(*self, true),
    {
        let mut out: Vec<Method> = Vec::new();
        let mut k: usize = 0;
        while k < 2
            invariant
                k <= 2,
                k == 0 ==> out@ == Seq::<Method>::empty(),
                k == 1 ==> out@ == methods_of(*self, false),
                k == 2 ==> out@ == methods_of(*self, false) + methods_of(*self, true),
            decreases 2 - k,
        {
            let async_ = k == 1;
            let ghost before = out@;
            if (async_ && self.async_) || (!async_ && self.sync_) {
                if self.read {
                    out.push(Method { async_, write: false });
                }
                if self.write {
                    out.push(Method { async_, write: true });
                }
            }
            assert(out@ =~= before + methods_of(*self, async_));
            k = k + 1;
        }
        out
    }
}


/// `a` comes before `b` in the generated module: blocking before async, and
/// reading before writing.
pub open spec fn method_before(a: Method, b: Method) -> bool {
    (!a.async_ && b.async_) || (a.async_ == b.async_ && !a.write && b.write)
}

/// The functions a config asks for: a method is generated exactly when its
/// direction (reading or writing) and its kind (blocking or async) are both
/// asked for, whatever else is; blocking ones come before async ones, and
/// reading before writing, each once.
pub proof fn lemma_methods_exact(c: GenerateConfig)
    ensures
        forall|m: Method|
            (methods_of(c, false) + methods_of(c, true)).contains(m) <==> ((if m.write {
                c.write
            } else {
                c.read
            }) && (if m.async_ {
                c.async_
            } else {
                c.sync_
            })),
        forall|i: int, j: int|
            0 <= i < j < (methods_of(c, false) + methods_of(c, true)).len() ==> method_before(
                #[trigger] (methods_of(c, false) + methods_of(c, true))[i],
                #[trigger] (methods_of(c, false) + methods_of(c, true))[j],
            ),
{
    let all = methods_of(c, false) + methods_of(c, true);
    assert forall|m: Method| all.contains(m) <==> ((if m.write { c.write } else { c.read }) && (if m.async_ {
        c.async_
    } else {
        c.sync_
    })) by {
        if (if m.write { c.write } else { c.read }) && (if m.async_ { c.async_ } else { c.sync_ }) {
            let part = methods_of(c, m.async_);
            let k: int = if m.write && c.read { 1 } else { 0 };
            assert(part[k] == m);
            if m.async_ {
                assert(all[methods_of(c, false).len() + k] == m);
            } else {
                assert(all[k] == m);
            }
        }
        if all.contains(m) {
            let i = choose|i: int| 0 <= i < all.len() && all[i] == m;
            if i < methods_of(c, false).len() {
                assert(methods_of(c, false)[i] == m);
            } else {
                assert(methods_of(c, true)[i - methods_of(c, false).len()] == m);
            }
        }
    }
}

/// A schema under construction.
pub struct Schema {
    pub nodes: Vec<NodeData>,
    /// Each node's id (a Rust identifier in the generated code).
    pub node_ids: Vec<String>,
    /// Each node's text: type name, Rust type, constant value or field name,
    /// depending on the kind (empty otherwise).
    pub node_text: Vec<String>,
    pub scopes: Vec<ScopeData>,
    pub scope_ids: Vec<String>,
    /// The ids taken in each scope: (scope, id, node named by it).
    pub level_ids: Vec<(usize, String, Option<usize>)>,
    /// The serial segments of each scope, in order: (scope, segment node).
    pub segments: Vec<(usize, usize)>,
    /// The serial elements of each scope, in order: (scope, node).
    pub sub_segments: Vec<(usize, usize)>,
    /// Extra starting points of reading: (scope, node).
    pub rust_extra_roots: Vec<(usize, usize)>,
    /// Extra starting points of writing: (scope, node).
    pub serial_extra_roots: Vec<(usize, usize)>,
    /// Serial-side inputs, in order per user.
    pub links: Vec<Link>,
    /// Rust-side users of fixed ranges: (range node, user).
    pub range_rust: Vec<(usize, usize)>,
    /// Nodes outside an enum's variants that reading the enum needs: (enum, node).
    pub external_deps: Vec<(usize, usize)>,
    /// Nodes of inner scopes that writing a serial root needs: (serial root, node).
    pub lifted_serial_deps: Vec<(usize, usize)>,
    /// Enum variants, in order of definition.
    pub variants: Vec<Variant>,
    /// Each variant's name.
    pub variant_names: Vec<String>,
    /// Each variant's tag pattern (empty for a default variant).
    pub variant_tags: Vec<String>,
    /// Fields of objects, in order: (object node, field node).
    pub fields: Vec<(usize, usize)>,
    /// Delimiters of delimited byte nodes: (node, delimiter).
    pub delimiters: Vec<(usize, Vec<u8>)>,
    /// Allocation state of the fixed ranges.
    pub ranges: Ranges,
    /// Scopes that get (de)serialization functions: (prefix, scope).
    pub top_scopes: Vec<(String, usize)>,
    /// Whether a delimited read needs a buffered reader.
    pub reader_buffered: bool,
    /// Extra lines of the generated module: imports and `pub mod` names.
    pub imports: Vec<String>,
    pub mods: Vec<String>,
    /// Lines put before the definitions of generated types: (enum or object
    /// node, attribute text).
    pub type_attrs: Vec<(usize, String)>,
}

// ## Well-formedness
pub open spec fn opt_lt(o: Option<usize>, n: int) -> bool {
    match o {
        Some(x) => x < n,
        None => true,
    }
}

pub open spec fn node_ok(d: NodeData, n_nodes: int, n_scopes: int) -> bool {
    &&& d.scope < n_scopes
    &&& opt_lt(d.serial_before, n_nodes)
    &&& opt_lt(d.segment, n_nodes)
    &&& opt_lt(d.rust, n_nodes)
    &&& match d.kind {
        NodeKind::DynamicArray { element } => element < n_scopes,
        NodeKind::ObjField { obj } => obj < n_nodes,
        _ => true,
    }
}

/// A scope only escapes to a scope made before it.
pub open spec fn scope_ok(s: ScopeData, i: int, n_nodes: int, n_variants: int) -> bool {
    &&& s.serial_root < n_nodes
    &&& opt_lt(s.rust_root, n_nodes)
    &&& match s.escape {
        Some(e) => e.parent < i && e.enum_node < n_nodes && e.variant < n_variants,
        None => true,
    }
}

pub open spec fn pairs_ok(p: Seq<(usize, usize)>, n_first: int, n_second: int) -> bool {
    forall|i: int| 0 <= i < p.len() ==> (#[trigger] p[i]).0 < n_first && p[i].1 < n_second
}

impl Schema {
    pub open spec fn wf(&self) -> bool {
        let nn = self.nodes.len() as int;
        let ns = self.scopes.len() as int;
        let nv = self.variants.len() as int;
        &&& self.node_ids.len() == nn
        &&& self.node_text.len() == nn
        &&& self.scope_ids.len() == ns
        &&& self.variant_names.len() == nv
        &&& self.variant_tags.len() == nv
        &&& forall|i: int| 0 <= i < nn ==> node_ok(#[trigger] self.nodes@[i], nn, ns)
        &&& forall|i: int| 0 <= i < ns ==> scope_ok(#[trigger] self.scopes@[i], i, nn, nv)
        &&& forall|i: int|
            0 <= i < self.level_ids.len() ==> (#[trigger] self.level_ids@[i]).0 < ns && opt_lt(
                self.level_ids@[i].2,
                nn,
            )
        &&& pairs_ok(self.segments@, ns, nn)
        &&& pairs_ok(self.sub_segments@, ns, nn)
        &&& pairs_ok(self.rust_extra_roots@, ns, nn)
        &&& pairs_ok(self.serial_extra_roots@, ns, nn)
        &&& pairs_ok(self.range_rust@, nn, nn)
        &&& pairs_ok(self.external_deps@, nn, nn)
        &&& pairs_ok(self.lifted_serial_deps@, nn, nn)
        &&& pairs_ok(self.fields@, nn, nn)
        &&& forall|i: int|
            0 <= i < self.links.len() ==> (#[trigger] self.links@[i]).user < nn
                && self.links@[i].primary < nn && opt_lt(self.links@[i].redirect, nn)
        &&& forall|i: int|
            0 <= i < nv ==> (#[trigger] self.variants@[i]).enum_node < nn
                && self.variants@[i].element < ns && opt_lt(self.variants@[i].default_tag, nn)
        &&& forall|i: int| 0 <= i < self.delimiters.len() ==> (#[trigger] self.delimiters@[i]).0 < nn
        &&& forall|i: int| 0 <= i < self.top_scopes.len() ==> (#[trigger] self.top_scopes@[i]).1 < ns
        &&& self.ranges.wf()
        &&& forall|i: int|
            0 <= i < self.ranges.serial.len() ==> (#[trigger] self.ranges.serial@[i]) < nn
                && self.nodes@[self.ranges.serial@[i] as int].kind is FixedRange
        &&& lines_sorted(self.imports@)
    }
}

// ## Ids
/// `id` is taken in scope `s` itself.
pub open spec fn taken_at(level_ids: Seq<(usize, String, Option<usize>)>, s: int, id: Seq<char>) -> bool {
    exists|i: int| 0 <= i < level_ids.len() && level_ids[i].0 == s && (#[trigger] level_ids[i]).1@ == id
}

/// `id` is free in scope `s` and in every scope `s` can escape to.
pub open spec fn id_free(
    scopes: Seq<ScopeData>,
    level_ids: Seq<(usize, String, Option<usize>)>,
    s: int,
    id: Seq<char>,
) -> bool
    decreases s,
{
    if s < 0 || s >= scopes.len() {
        true
    } else {
        &&& !taken_at(level_ids, s, id)
        &&& match scopes[s].escape {
            Some(e) => e.parent < s ==> id_free(scopes, level_ids, e.parent as int, id),
            None => true,
        }
    }
}

/// The scopes a scope escapes through, innermost first, up to (not including)
/// `target`; `None` when `target` is not among them.
pub open spec fn escape_path(scopes: Seq<ScopeData>, s: int, target: int) -> Option<Seq<Escape>>
    decreases s,
{
    if s < 0 || s >= scopes.len() {
        None
    } else if s == target {
        Some(Seq::empty())
    } else {
        match scopes[s].escape {
            Some(e) => if e.parent < s {
                match escape_path(scopes, e.parent as int, target) {
                    Some(rest) => Some(seq![e] + rest),
                    None => None,
                }
            } else {
                None
            },
            None => None,
        }
    }
}

impl Schema {
    /// Every table of the schema is empty and the reader is not buffered.
    pub open spec fn is_empty(&self) -> bool {
        &&& self.nodes.len() == 0
        &&& self.node_ids.len() == 0
        &&& self.node_text.len() == 0
        &&& self.scopes.len() == 0
        &&& self.scope_ids.len() == 0
        &&& self.level_ids.len() == 0
        &&& self.segments.len() == 0
        &&& self.sub_segments.len() == 0
        &&& self.rust_extra_roots.len() == 0
        &&& self.serial_extra_roots.len() == 0
        &&& self.links.len() == 0
        &&& self.range_rust.len() == 0
        &&& self.external_deps.len() == 0
        &&& self.lifted_serial_deps.len() == 0
        &&& self.variants.len() == 0
        &&& self.variant_names.len() == 0
        &&& self.variant_tags.len() == 0
        &&& self.fields.len() == 0
        &&& self.delimiters.len() == 0
        &&& self.ranges.is_empty()
        &&& self.top_scopes.len() == 0
        &&& !self.reader_buffered
        &&& self.imports.len() == 0
        &&& lines_sorted(self.imports@)
        &&& self.mods.len() == 0
        &&& self.type_attrs.len() == 0
    }

    /// An empty schema.
    pub fn new() -> (out: Schema)
        ensures
            out.wf(),
            out.is_empty(),
    {
        Schema {
            nodes: Vec::new(),
            node_ids: Vec::new(),
            node_text: Vec::new(),
            scopes: Vec::new(),
            scope_ids: Vec::new(),
            level_ids: Vec::new(),
            segments: Vec::new(),
            sub_segments: Vec::new(),
            rust_extra_roots: Vec::new(),
            serial_extra_roots: Vec::new(),
            links: Vec::new(),
            range_rust: Vec::new(),
            external_deps: Vec::new(),
            lifted_serial_deps: Vec::new(),
            variants: Vec::new(),
            variant_names: Vec::new(),
            variant_tags: Vec::new(),
            fields: Vec::new(),
            delimiters: Vec::new(),
            ranges: Ranges::new(),
            top_scopes: Vec::new(),
            reader_buffered: false,
            imports: Vec::new(),
            mods: Vec::new(),
            type_attrs: Vec::new(),
        }
    }

    fn taken_here(&self, s: usize, id: &String) -> (out: bool)
        ensures
            out == taken_at(self.level_ids@, s as int, id@),
    {
        let mut i: usize = 0;
        while i < self.level_ids.len()
            invariant
                i <= self.level_ids.len(),
                forall|k: int|
                    0 <= k < i ==> !(self.level_ids@[k].0 == s && (#[trigger] self.level_ids@[k]).1@
                        == id@),
            decreases self.level_ids.len() - i,
        {
            if self.level_ids[i].0 == s && self.level_ids[i].1 == *id {
                return true;
            }
            i = i + 1;
        }
        false
    }

    /// Whether `id` can still be taken in scope `s` (the scope and every
    /// scope it can escape to are checked).
    pub fn id_is_free(&self, s: usize, id: &String) -> (out: bool)
        requires
            self.wf(),
            s < self.scopes.len(),
        ensures
            out == id_free(self.scopes@, self.level_ids@, s as int, id@),
    {
        let mut at = s;
        loop
            invariant
                self.wf(),
                at <= s < self.scopes.len(),
                id_free(self.scopes@, self.level_ids@, s as int, id@) == id_free(
                    self.scopes@,
                    self.level_ids@,
                    at as int,
                    id@,
                ),
            decreases at,
        {
            if self.taken_here(at, id) {
                return false;
            }
            match self.scopes[at].escape {
                Some(e) => {
                    at = e.parent;
                },
                None => {
                    return true;
                },
            }
        }
    }

    /// Takes `id` in scope `s`, naming `node`; fails if the id is taken in the
    /// scope or a scope it can escape to.
    pub fn take_id(&mut self, s: usize, id: &String, node: Option<usize>) -> (out: Result<(), SchemaError>)
        requires
            old(self).wf(),
            s < old(self).scopes.len(),
            opt_lt(node, old(self).nodes.len() as int),
        ensures
            final(self).wf(),
            id_free(old(self).scopes@, old(self).level_ids@, s as int, id@) ==> out is Ok
                && final(self).level_ids@ == old(self).level_ids@.push((s, *id, node)),
            !id_free(old(self).scopes@, old(self).level_ids@, s as int, id@) ==> out == Err::<
                (),
                SchemaError,
            >(SchemaError::IdTaken) && final(self).level_ids@ == old(self).level_ids@,
            *final(self) == (Schema { level_ids: final(self).level_ids, ..*old(self) }),
    {
        if !self.id_is_free(s, id) {
            return Err(SchemaError::IdTaken);
        }
        self.level_ids.push((s, id.clone(), node));
        Ok(())
    }
}


/// The last entry of `list` for scope `s`, if any.
pub open spec fn last_of(list: Seq<(usize, usize)>, s: int) -> Option<usize>
    decreases list.len(),
{
    if list.len() == 0 {
        None
    } else if list.last().0 == s {
        Some(list.last().1)
    } else {
        last_of(list.drop_last(), s)
    }
}

pub proof fn lemma_last_of_bound(list: Seq<(usize, usize)>, s: int, n: int)
    requires
        forall|i: int| 0 <= i < list.len() ==> (#[trigger] list[i]).1 < n,
    ensures
        opt_lt(last_of(list, s), n),
    decreases list.len(),
{
    if list.len() > 0 {
        assert(list.last().1 < n);
        lemma_last_of_bound(list.drop_last(), s, n);
    }
}

fn last_in_scope(list: &Vec<(usize, usize)>, s: usize) -> (out: Option<usize>)
    ensures
        out == last_of(list@, s as int),
{
    let mut i: usize = list.len();
    assert(list@.take(list.len() as int) =~= list@);
    while i > 0
        invariant
            i <= list.len(),
            last_of(list@, s as int) == last_of(list@.take(i as int), s as int),
        decreases i,
    {
        assert(list@.take(i as int).drop_last() =~= list@.take(i - 1));
        if list[i - 1].0 == s {
            return Some(list[i - 1].1);
        }
        i = i - 1;
    }
    None
}

/// `a` followed by `b`, as a new string.
pub(crate) fn joined(a: &String, b: &str) -> (out: String)
    ensures
        out@ == a@ + b@,
{
    let mut out = a.clone();
    out.append(b);
    out
}

impl Schema {
    /// Why `id` can't name something new in scope `s`, if it can't: it must be a
    /// Rust identifier and be free in the scope and the scopes it escapes to.
    pub open spec fn spec_check_id(&self, s: int, id: Seq<char>) -> Result<(), SchemaError> {
        if !rust_ident_ok(id) {
            Err(SchemaError::InvalidIdent)
        } else if !id_free(self.scopes@, self.level_ids@, s, id) {
            Err(SchemaError::IdTaken)
        } else {
            Ok(())
        }
    }

    pub(crate) fn check_id(&self, s: usize, id: &String) -> (out: Result<(), SchemaError>)
        requires
            self.wf(),
            s < self.scopes.len(),
        ensures
            out == self.spec_check_id(s as int, id@),
    {
        if !is_rust_ident(id.as_str()) {
            return Err(SchemaError::InvalidIdent);
        }
        if !self.id_is_free(s, id) {
            return Err(SchemaError::IdTaken);
        }
        Ok(())
    }

    /// Appends a node.
    pub(crate) fn push_node(&mut self, data: NodeData, id: String, text: String) -> (out: usize)
        requires
            old(self).wf(),
            node_ok(data, old(self).nodes.len() + 1, old(self).scopes.len() as int),
        ensures
            final(self).wf(),
            out == old(self).nodes.len(),
            final(self).nodes@ == old(self).nodes@.push(data),
            final(self).node_ids@ == old(self).node_ids@.push(id),
            final(self).node_text@ == old(self).node_text@.push(text),
            *final(self) == (Schema {
                nodes: final(self).nodes,
                node_ids: final(self).node_ids,
                node_text: final(self).node_text,
                ..*old(self)
            }),
    {
        let out = self.nodes.len();
        self.nodes.push(data);
        self.node_ids.push(id);
        self.node_text.push(text);
        proof {
            assert forall|i: int| 0 <= i < self.nodes.len() implies node_ok(
                #[trigger] self.nodes@[i],
                self.nodes.len() as int,
                self.scopes.len() as int,
            ) by {
                if i < out {
                    assert(node_ok(old(self).nodes@[i], out as int, self.scopes.len() as int));
                }
            }
            assert forall|i: int| 0 <= i < self.scopes.len() implies scope_ok(
                #[trigger] self.scopes@[i],
                i,
                self.nodes.len() as int,
                self.variants.len() as int,
            ) by {
                assert(scope_ok(old(self).scopes@[i], i, out as int, self.variants.len() as int));
            }
        }
        out
    }

    /// A new scope named `id`, with its serial root `id__serial`.
    /// The serial root's name must be a Rust identifier.
    pub fn new_scope(&mut self, id: &String) -> (out: Result<usize, SchemaError>)
        requires
            old(self).wf(),
        ensures
            final(self).wf(),
            !rust_ident_ok(id@ + "__serial"@) ==> out == Err::<usize, SchemaError>(
                SchemaError::InvalidIdent,
            ) && *final(self) == *old(self),
            rust_ident_ok(id@ + "__serial"@) ==> {
                let s = old(self).scopes.len();
                let n = old(self).nodes.len();
                &&& out == Ok::<usize, SchemaError>(s)
                &&& final(self).scopes@ == old(self).scopes@.push(
                    ScopeData { serial_root: n, rust_root: None, escape: None, has_external_deps: false },
                )
                &&& final(self).scope_ids@ == old(self).scope_ids@.push(*id)
                &&& final(self).nodes@ == old(self).nodes@.push(
                    NodeData { kind: NodeKind::Serial, scope: s, serial_before: None, segment: None, rust: None },
                )
                &&& final(self).node_ids@.len() == n + 1
                &&& final(self).node_ids@[n as int]@ == id@ + "__serial"@
                &&& final(self).level_ids@.len() == old(self).level_ids@.len() + 2
                &&& final(self).level_ids@.take(old(self).level_ids@.len() as int) == old(self).level_ids@
                &&& forall|i: int| old(self).level_ids@.len() <= i < final(self).level_ids@.len() ==> (#[trigger] final(self).level_ids@[i]).0 == s
                &&& *final(self) == (Schema {
                    nodes: final(self).nodes,
                    node_ids: final(self).node_ids,
                    node_text: final(self).node_text,
                    scopes: final(self).scopes,
                    scope_ids: final(self).scope_ids,
                    level_ids: final(self).level_ids,
                    ..*old(self)
                })
            },
    {
        let serial_id = joined(id, "__serial");
        if !is_rust_ident(serial_id.as_str()) {
            return Err(SchemaError::InvalidIdent);
        }
        let s = self.scopes.len();
        let n = self.nodes.len();
        self.nodes.push(
            NodeData { kind: NodeKind::Serial, scope: s, serial_before: None, segment: None, rust: None },
        );
        self.node_ids.push(serial_id.clone());
        self.node_text.push(String::new());
        self.scopes.push(ScopeData { serial_root: n, rust_root: None, escape: None, has_external_deps: false });
        self.scope_ids.push(id.clone());
        self.level_ids.push((s, id.clone(), None));
        self.level_ids.push((s, serial_id, None));
        proof {
            assert forall|i: int| 0 <= i < self.nodes.len() implies node_ok(
                #[trigger] self.nodes@[i],
                self.nodes.len() as int,
                self.scopes.len() as int,
            ) by {
                if i < n {
                    assert(node_ok(old(self).nodes@[i], n as int, s as int));
                }
            }
            assert forall|i: int| 0 <= i < self.scopes.len() implies scope_ok(
                #[trigger] self.scopes@[i],
                i,
                self.nodes.len() as int,
                self.variants.len() as int,
            ) by {
                if i < s {
                    assert(scope_ok(old(self).scopes@[i], i, n as int, self.variants.len() as int));
                }
            }
            assert(self.level_ids@.take(old(self).level_ids@.len() as int) =~= old(self).level_ids@);
        }
        Ok(s)
    }
}


/// The name of the serial segment of an element named `id`.
pub open spec fn seg_name(id: Seq<char>) -> Seq<char> {
    id + "__serial_seg"@
}

impl Schema {
    /// Why a serial element named `id` can't be added to scope `s`, if it
    /// can't: its segment's name is checked first, then its own.
    pub open spec fn spec_check_serial(&self, s: int, id: Seq<char>) -> Result<(), SchemaError> {
        match self.spec_check_id(s, seg_name(id)) {
            Err(e) => Err(e),
            Ok(_) => self.spec_check_id(s, id),
        }
    }

    /// The tables after adding serial element `id` of kind `kind` to scope `s`
    /// with its segment: everything else is unchanged.
    pub open spec fn added_serial(
        &self,
        next: &Schema,
        s: int,
        id: Seq<char>,
        kind: NodeKind,
        names_node: bool,
        seg_to_node: bool,
    ) -> bool {
        let n = self.nodes.len() as int;
        let seg = NodeData {
            kind: NodeKind::SerialSegment,
            scope: s as usize,
            serial_before: last_of(self.segments@, s),
            segment: Some(self.scopes@[s].serial_root),
            rust: if seg_to_node { Some((n + 1) as usize) } else { None },
        };
        let node = NodeData {
            kind,
            scope: s as usize,
            serial_before: last_of(self.sub_segments@, s),
            segment: Some(n as usize),
            rust: None,
        };
        &&& next.nodes@ == self.nodes@.push(seg).push(node)
        &&& next.node_ids@.len() == n + 2
        &&& next.node_ids@.take(n) == self.node_ids@
        &&& next.node_ids@[n]@ == seg_name(id)
        &&& next.node_ids@[n + 1]@ == id
        &&& next.node_text@.len() == n + 2
        &&& next.node_text@.take(n) == self.node_text@
        &&& next.level_ids@.len() == self.level_ids@.len() + 2
        &&& next.level_ids@.take(self.level_ids@.len() as int) == self.level_ids@
        &&& next.level_ids@[self.level_ids@.len() as int].0 == s
        &&& next.level_ids@[self.level_ids@.len() as int].1@ == seg_name(id)
        &&& next.level_ids@[self.level_ids@.len() + 1int].0 == s
        &&& next.level_ids@[self.level_ids@.len() + 1int].1@ == id
        &&& next.level_ids@[self.level_ids@.len() + 1int].2 == (if names_node {
            Some((n + 1) as usize)
        } else {
            None
        })
        &&& next.segments@ == self.segments@.push((s as usize, n as usize))
        &&& next.sub_segments@ == self.sub_segments@.push((s as usize, (n + 1) as usize))
        &&& next.scopes@ == self.scopes@
        &&& next.scope_ids@ == self.scope_ids@
        &&& next.links@ == self.links@
        &&& next.variants@ == self.variants@
        &&& next.variant_names@ == self.variant_names@
        &&& next.range_rust@ == self.range_rust@
        &&& next.external_deps@ == self.external_deps@
        &&& next.lifted_serial_deps@ == self.lifted_serial_deps@
        &&& next.fields@ == self.fields@
        &&& next.rust_extra_roots@ == self.rust_extra_roots@
        &&& next.serial_extra_roots@ == self.serial_extra_roots@
        &&& next.delimiters@ == self.delimiters@
        &&& next.ranges == self.ranges
        &&& next.top_scopes@ == self.top_scopes@
        &&& next.reader_buffered == self.reader_buffered
    }

    /// Adds serial element `id` of kind `kind` to scope `s`, after a segment of
    /// its own named `id__serial_seg`.  `names_node` says whether the id refers
    /// to the node, `seg_to_node` whether the segment's rust side is the
    /// element.
    pub(crate) fn add_serial(
        &mut self,
        s: usize,
        id: &String,
        kind: NodeKind,
        text: String,
        names_node: bool,
        seg_to_node: bool,
    ) -> (out: Result<usize, SchemaError>)
        requires
            old(self).wf(),
            s < old(self).scopes.len(),
            old(self).nodes.len() + 2 < usize::MAX,
            node_ok(
                NodeData { kind, scope: s, serial_before: None, segment: None, rust: None },
                old(self).nodes.len() + 2,
                old(self).scopes.len() as int,
            ),
        ensures
            final(self).wf(),
            old(self).spec_check_serial(s as int, id@) is Err ==> out == Err::<usize, SchemaError>(
                old(self).spec_check_serial(s as int, id@)->Err_0,
            ) && *final(self) == *old(self),
            old(self).spec_check_serial(s as int, id@) is Ok ==> out == Ok::<usize, SchemaError>(
                (old(self).nodes.len() + 1) as usize,
            ) && old(self).added_serial(final(self), s as int, id@, kind, names_node, seg_to_node)
                && final(self).node_text@[old(self).nodes.len() + 1int] == text,
    {
        let seg_id = joined(id, "__serial_seg");
        match self.check_id(s, &seg_id) {
            Err(e) => {
                return Err(e);
            },
            Ok(_) => {},
        }
        match self.check_id(s, id) {
            Err(e) => {
                return Err(e);
            },
            Ok(_) => {},
        }
        let ghost old_self = *self;
        let n = self.nodes.len();
        let serial_before_seg = last_in_scope(&self.segments, s);
        let serial_before = last_in_scope(&self.sub_segments, s);
        proof {
            lemma_last_of_bound(self.segments@, s as int, n as int);
            lemma_last_of_bound(self.sub_segments@, s as int, n as int);
        }
        let root = self.scopes[s].serial_root;
        let seg_rust = if seg_to_node {
            Some(n + 1)
        } else {
            None
        };
        self.nodes.push(
            NodeData {
                kind: NodeKind::SerialSegment,
                scope: s,
                serial_before: serial_before_seg,
                segment: Some(root),
                rust: seg_rust,
            },
        );
        self.nodes.push(NodeData { kind, scope: s, serial_before, segment: Some(n), rust: None });
        self.node_ids.push(seg_id.clone());
        self.node_ids.push(id.clone());
        self.node_text.push(String::new());
        self.node_text.push(text);
        self.level_ids.push((s, seg_id, Some(n)));
        let named = if names_node {
            Some(n + 1)
        } else {
            None
        };
        self.level_ids.push((s, id.clone(), named));
        self.segments.push((s, n));
        self.sub_segments.push((s, n + 1));
        proof {
            assert forall|i: int| 0 <= i < self.nodes.len() implies node_ok(
                #[trigger] self.nodes@[i],
                self.nodes.len() as int,
                self.scopes.len() as int,
            ) by {
                if i < n {
                    assert(node_ok(old_self.nodes@[i], n as int, self.scopes.len() as int));
                }
            }
            assert forall|i: int| 0 <= i < self.scopes.len() implies scope_ok(
                #[trigger] self.scopes@[i],
                i,
                self.nodes.len() as int,
                self.variants.len() as int,
            ) by {
                assert(scope_ok(old_self.scopes@[i], i, n as int, self.variants.len() as int));
            }
            assert forall|i: int| 0 <= i < self.level_ids.len() implies (#[trigger] self.level_ids@[i]).0
                < self.scopes.len() && opt_lt(self.level_ids@[i].2, self.nodes.len() as int) by {
                if i < old_self.level_ids.len() {
                    assert(old_self.level_ids@[i] == self.level_ids@[i]);
                }
            }
            assert(pairs_ok(self.segments@, self.scopes.len() as int, self.nodes.len() as int)) by {
                assert forall|i: int| 0 <= i < self.segments.len() implies (#[trigger] self.segments@[i]).0
                    < self.scopes.len() && self.segments@[i].1 < self.nodes.len() by {
                    if i < old_self.segments.len() {
                        assert(old_self.segments@[i] == self.segments@[i]);
                    }
                }
            }
            assert(pairs_ok(self.sub_segments@, self.scopes.len() as int, self.nodes.len() as int)) by {
                assert forall|i: int| 0 <= i < self.sub_segments.len() implies (#[trigger] self.sub_segments@[i]).0
                    < self.scopes.len() && self.sub_segments@[i].1 < self.nodes.len() by {
                    if i < old_self.sub_segments.len() {
                        assert(old_self.sub_segments@[i] == self.sub_segments@[i]);
                    }
                }
            }
            assert(pairs_ok(self.rust_extra_roots@, self.scopes.len() as int, self.nodes.len() as int)) by {
                assert forall|i: int| 0 <= i < self.rust_extra_roots.len() implies (#[trigger] self.rust_extra_roots@[i]).0
                    < self.scopes.len() && self.rust_extra_roots@[i].1 < self.nodes.len() by {
                    assert(old_self.rust_extra_roots@[i] == self.rust_extra_roots@[i]);
                }
            }
            assert(pairs_ok(self.serial_extra_roots@, self.scopes.len() as int, self.nodes.len() as int)) by {
                assert forall|i: int| 0 <= i < self.serial_extra_roots.len() implies (#[trigger] self.serial_extra_roots@[i]).0
                    < self.scopes.len() && self.serial_extra_roots@[i].1 < self.nodes.len() by {
                    assert(old_self.serial_extra_roots@[i] == self.serial_extra_roots@[i]);
                }
            }
            assert(self.node_ids@.take(n as int) =~= old_self.node_ids@);
            assert(self.node_text@.take(n as int) =~= old_self.node_text@);
            assert(self.level_ids@.take(old_self.level_ids@.len() as int) =~= old_self.level_ids@);
        }
        Ok(n + 1)
    }
}


// ## Connections
/// `(a, b)` is in `list`.
pub open spec fn has_pair(list: Seq<(usize, usize)>, a: usize, b: usize) -> bool {
    exists|i: int| 0 <= i < list.len() && list[i] == (a, b)
}

/// Adds `(a, b)` to `list` unless it is there already (the tables keyed by
/// node, where each pair is kept once).
fn insert_pair(list: &mut Vec<(usize, usize)>, a: usize, b: usize)
    ensures
        has_pair(final(list)@, a, b),
        has_pair(old(list)@, a, b) ==> final(list)@ == old(list)@,
        !has_pair(old(list)@, a, b) ==> final(list)@ == old(list)@.push((a, b)),
        old(list)@.len() <= final(list)@.len(),
        forall|i: int| 0 <= i < old(list)@.len() ==> final(list)@[i] == old(list)@[i],
{
    let mut i: usize = 0;
    while i < list.len()
        invariant
            i <= list.len(),
            list@ == old(list)@,
            forall|k: int| 0 <= k < i ==> list@[k] != (a, b),
        decreases list.len() - i,
    {
        if list[i].0 == a && list[i].1 == b {
            return;
        }
        i = i + 1;
    }
    list.push((a, b));
    assert(list@[list.len() - 1] == (a, b));
}

proof fn lemma_pairs_ok_insert(old_list: Seq<(usize, usize)>, new_list: Seq<(usize, usize)>, a: usize, b: usize, n1: int, n2: int)
    requires
        pairs_ok(old_list, n1, n2),
        a < n1,
        b < n2,
        new_list == old_list || new_list == old_list.push((a, b)),
    ensures
        pairs_ok(new_list, n1, n2),
{
    assert forall|i: int| 0 <= i < new_list.len() implies (#[trigger] new_list[i]).0 < n1 && new_list[i].1 < n2 by {
        if i < old_list.len() {
            assert(new_list[i] == old_list[i]);
        }
    }
}

/// The rust side of `serial` is `rust`.
pub open spec fn connected(sc: &Schema, serial: usize, rust: usize) -> bool {
    match sc.nodes@[serial as int].kind {
        NodeKind::FixedRange { .. } => has_pair(sc.range_rust@, serial, rust),
        _ => sc.nodes@[serial as int].rust == Some(rust),
    }
}

/// Whether the rust side of `serial` can be connected to `rust`: serial-side
/// nodes without a value can't; a fixed range takes any number of users; other
/// nodes take one.
pub open spec fn spec_set_rust(sc: &Schema, serial: usize, rust: usize) -> Result<(), SchemaError> {
    match sc.nodes@[serial as int].kind {
        NodeKind::Serial | NodeKind::SerialSegment | NodeKind::Align { .. } | NodeKind::Const
        | NodeKind::Obj | NodeKind::ObjField { .. } => Err(SchemaError::WrongNodeKind),
        NodeKind::FixedRange { .. } => Ok(()),
        _ => match sc.nodes@[serial as int].rust {
            Some(r) => if r != rust {
                Err(SchemaError::RustAlreadyConnected)
            } else {
                Ok(())
            },
            None => Ok(()),
        },
    }
}

/// Only these tables and flags may change when nodes get connected.
pub open spec fn same_shape(a: &Schema, b: &Schema) -> bool {
    &&& b.nodes.len() == a.nodes.len()
    &&& forall|i: int|
        0 <= i < a.nodes.len() ==> (#[trigger] b.nodes@[i]).kind == a.nodes@[i].kind && b.nodes@[i].scope
            == a.nodes@[i].scope && b.nodes@[i].serial_before == a.nodes@[i].serial_before
            && b.nodes@[i].segment == a.nodes@[i].segment
    &&& b.scopes.len() == a.scopes.len()
    &&& forall|i: int|
        0 <= i < a.scopes.len() ==> (#[trigger] b.scopes@[i]).serial_root == a.scopes@[i].serial_root
            && b.scopes@[i].rust_root == a.scopes@[i].rust_root && b.scopes@[i].escape
            == a.scopes@[i].escape
    &&& b.node_ids@ == a.node_ids@
    &&& b.node_text@ == a.node_text@
    &&& b.scope_ids@ == a.scope_ids@
    &&& b.level_ids@ == a.level_ids@
    &&& b.segments@ == a.segments@
    &&& b.sub_segments@ == a.sub_segments@
    &&& b.rust_extra_roots@ == a.rust_extra_roots@
    &&& b.serial_extra_roots@ == a.serial_extra_roots@
    &&& b.variants@ == a.variants@
    &&& b.variant_names@ == a.variant_names@
    &&& b.variant_tags@ == a.variant_tags@
    &&& b.fields@ == a.fields@
    &&& b.delimiters@ == a.delimiters@
    &&& b.ranges == a.ranges
    &&& b.top_scopes@ == a.top_scopes@
    &&& b.reader_buffered == a.reader_buffered
    &&& b.imports@ == a.imports@
    &&& b.mods@ == a.mods@
    &&& b.type_attrs@ == a.type_attrs@
}

/// The tables that adding a value node leaves alone: the scopes' names,
/// serial layout, variants, struct fields, delimiters, top scopes and the
/// lines of the generated module.
pub open spec fn values_frame(a: &Schema, b: &Schema) -> bool {
    &&& b.scope_ids@ == a.scope_ids@
    &&& b.segments@ == a.segments@
    &&& b.sub_segments@ == a.sub_segments@
    &&& b.serial_extra_roots@ == a.serial_extra_roots@
    &&& b.variants@ == a.variants@
    &&& b.variant_names@ == a.variant_names@
    &&& b.variant_tags@ == a.variant_tags@
    &&& b.fields@ == a.fields@
    &&& b.delimiters@ == a.delimiters@
    &&& b.top_scopes@ == a.top_scopes@
    &&& b.reader_buffered == a.reader_buffered
    &&& b.imports@ == a.imports@
    &&& b.mods@ == a.mods@
    &&& b.type_attrs@ == a.type_attrs@
}

impl Schema {
    fn mark_external(&mut self, s: usize)
        requires
            old(self).wf(),
            s < old(self).scopes.len(),
        ensures
            final(self).wf(),
            same_shape(old(self), final(self)),
            final(self).scopes@[s as int].has_external_deps,
            forall|i: int| 0 <= i < old(self).scopes.len() && i != s ==> final(self).scopes@[i] == old(self).scopes@[i],
            final(self).nodes@ == old(self).nodes@,
            final(self).links@ == old(self).links@,
            final(self).range_rust@ == old(self).range_rust@,
            final(self).external_deps@ == old(self).external_deps@,
            final(self).lifted_serial_deps@ == old(self).lifted_serial_deps@,
    {
        let mut d = self.scopes[s];
        d.has_external_deps = true;
        self.scopes.set(s, d);
        proof {
            assert forall|i: int| 0 <= i < self.scopes.len() implies scope_ok(
                #[trigger] self.scopes@[i],
                i,
                self.nodes.len() as int,
                self.variants.len() as int,
            ) by {
                assert(scope_ok(old(self).scopes@[i], i, self.nodes.len() as int, self.variants.len() as int));
            }
        }
    }

    /// Connects the rust side of `serial` to `rust` (`set_rust` of each node
    /// kind); on failure nothing changes.
    pub(crate) fn set_rust(&mut self, serial: usize, rust: usize) -> (out: Result<(), SchemaError>)
        requires
            old(self).wf(),
            serial < old(self).nodes.len(),
            rust < old(self).nodes.len(),
        ensures
            final(self).wf(),
            out == spec_set_rust(old(self), serial, rust),
            out is Err ==> *final(self) == *old(self),
            out is Ok ==> connected(final(self), serial, rust) && same_shape(old(self), final(self)),
            final(self).links@ == old(self).links@,
            final(self).external_deps@ == old(self).external_deps@,
            final(self).lifted_serial_deps@ == old(self).lifted_serial_deps@,
            forall|m: usize, r: usize|
                m != serial && m < old(self).nodes.len() ==> (connected(old(self), m, r) <==> connected(
                    final(self),
                    m,
                    r,
                )),
            forall|m: int| 0 <= m < old(self).nodes.len() && m != serial ==> final(self).nodes@[m] == old(self).nodes@[m],
    {
        let d = self.nodes[serial];
        match d.kind {
            NodeKind::Serial | NodeKind::SerialSegment | NodeKind::Align { .. } | NodeKind::Const
            | NodeKind::Obj | NodeKind::ObjField { .. } => {
                return Err(SchemaError::WrongNodeKind);
            },
            NodeKind::FixedRange { .. } => {
                let ghost old_rr = self.range_rust@;
                insert_pair(&mut self.range_rust, serial, rust);
                proof {
                    lemma_pairs_ok_insert(old_rr, self.range_rust@, serial, rust, self.nodes.len() as int, self.nodes.len() as int);
                    assert forall|m: usize, r: usize|
                        m != serial && m < old(self).nodes.len() implies (connected(old(self), m, r) <==> connected(
                        self,
                        m,
                        r,
                    )) by {
                        if has_pair(old_rr, m, r) {
                            let i = choose|i: int| 0 <= i < old_rr.len() && old_rr[i] == (m, r);
                            assert(self.range_rust@[i] == (m, r));
                        }
                        if has_pair(self.range_rust@, m, r) {
                            let i = choose|i: int| 0 <= i < self.range_rust@.len() && self.range_rust@[i] == (m, r);
                            assert(i < old_rr.len());
                            assert(old_rr[i] == (m, r));
                        }
                    }
                }
                return Ok(());
            },
            _ => {},
        }
        match d.rust {
            Some(r) => {
                if r != rust {
                    return Err(SchemaError::RustAlreadyConnected);
                }
            },
            None => {},
        }
        let mut d2 = d;
        d2.rust = Some(rust);
        self.nodes.set(serial, d2);
        proof {
            assert forall|i: int| 0 <= i < self.nodes.len() implies node_ok(
                #[trigger] self.nodes@[i],
                self.nodes.len() as int,
                self.scopes.len() as int,
            ) by {
                assert(node_ok(old(self).nodes@[i], self.nodes.len() as int, self.scopes.len() as int));
            }
        }
        if d.kind == NodeKind::EnumDummy {
            self.mark_external(d.scope);
        }
        Ok(())
    }
}


proof fn lemma_has_pair_grow(old_list: Seq<(usize, usize)>, new_list: Seq<(usize, usize)>, a: usize, b: usize)
    requires
        has_pair(old_list, a, b),
        old_list.len() <= new_list.len(),
        forall|i: int| 0 <= i < old_list.len() ==> new_list[i] == old_list[i],
    ensures
        has_pair(new_list, a, b),
{
    let i = choose|i: int| 0 <= i < old_list.len() && old_list[i] == (a, b);
    assert(new_list[i] == (a, b));
}

pub open spec fn escapes_ok(ancestry: Seq<Escape>, n_nodes: int, n_scopes: int) -> bool {
    forall|i: int|
        0 <= i < ancestry.len() ==> (#[trigger] ancestry[i]).enum_node < n_nodes && ancestry[i].parent
            < n_scopes
}

/// Where the rust side of a lifted input goes: the enum at the outermost level
/// escaped through, or the user itself.
pub open spec fn lift_target(ancestry: Seq<Escape>, rust: usize) -> usize {
    if ancestry.len() == 0 {
        rust
    } else {
        ancestry[0].enum_node
    }
}

impl Schema {
    /// Connects serial-side node `serial` to its user `rust` in scope `s`,
    /// `ancestry` being the levels escaped through to reach `serial`'s scope
    /// (outermost first).  Without escaping they are joined directly.  Across
    /// enum levels the outermost enum becomes the rust side of `serial` and
    /// depends on it for reading; each inner enum is written as part of the
    /// serial root of the scope around it and depends on that root for reading;
    /// the user is written as part of the serial root of `s`, which its input
    /// is redirected to; and the scopes crossed are marked as having external
    /// dependencies.
    pub(crate) fn lift_connect(&mut self, s: usize, ancestry: &Vec<Escape>, serial: usize, rust: usize) -> (out:
        Result<(), SchemaError>)
        requires
            old(self).wf(),
            s < old(self).scopes.len(),
            serial < old(self).nodes.len(),
            rust < old(self).nodes.len(),
            escapes_ok(ancestry@, old(self).nodes.len() as int, old(self).scopes.len() as int),
        ensures
            final(self).wf(),
            out == spec_set_rust(old(self), serial, lift_target(ancestry@, rust)),
            out is Err ==> *final(self) == *old(self),
            forall|m: int| 0 <= m < old(self).nodes.len() && m != serial ==> final(self).nodes@[m] == old(self).nodes@[m],
            out is Ok ==> {
                let root = old(self).scopes@[s as int].serial_root;
                &&& same_shape(old(self), final(self))
                &&& connected(final(self), serial, lift_target(ancestry@, rust))
                &&& final(self).links@ == old(self).links@.push(
                    Link {
                        user: rust,
                        primary: serial,
                        redirect: if ancestry.len() == 0 {
                            None
                        } else {
                            Some(root)
                        },
                    },
                )
                &&& ancestry.len() > 0 ==> {
                    &&& has_pair(final(self).external_deps@, ancestry[0].enum_node, serial)
                    &&& has_pair(final(self).lifted_serial_deps@, root, rust)
                    &&& final(self).scopes@[old(self).nodes@[rust as int].scope as int].has_external_deps
                    &&& forall|j: int|
                        1 <= j < ancestry.len() ==> {
                            let e = #[trigger] ancestry@[j];
                            let proot = old(self).scopes@[e.parent as int].serial_root;
                            &&& has_pair(final(self).lifted_serial_deps@, proot, e.enum_node)
                            &&& has_pair(final(self).external_deps@, e.enum_node, proot)
                            &&& final(self).scopes@[e.parent as int].has_external_deps
                        }
                }
            },
    {
        let root = self.scopes[s].serial_root;
        if ancestry.len() == 0 {
            match self.set_rust(serial, rust) {
                Err(e) => {
                    return Err(e);
                },
                Ok(_) => {},
            }
            self.links.push(Link { user: rust, primary: serial, redirect: None });
            proof {
                assert forall|i: int| 0 <= i < self.links.len() implies (#[trigger] self.links@[i]).user
                    < self.nodes.len() && self.links@[i].primary < self.nodes.len() && opt_lt(
                    self.links@[i].redirect,
                    self.nodes.len() as int,
                ) by {
                    if i < self.links.len() - 1 {
                        assert(self.links@[i] == old(self).links@[i]);
                    }
                }
            }
            return Ok(());
        }
        let enum0 = ancestry[0].enum_node;
        match self.set_rust(serial, enum0) {
            Err(e) => {
                return Err(e);
            },
            Ok(_) => {},
        }
        let ghost after_set = *self;
        let nn = self.nodes.len();
        let ghost old_ext = self.external_deps@;
        insert_pair(&mut self.external_deps, enum0, serial);
        proof {
            lemma_pairs_ok_insert(old_ext, self.external_deps@, enum0, serial, nn as int, nn as int);
        }
        let mut i: usize = 1;
        while i < ancestry.len()
            invariant
                self.wf(),
                1 <= i <= ancestry.len(),
                nn == self.nodes.len(),
                escapes_ok(ancestry@, self.nodes.len() as int, self.scopes.len() as int),
                same_shape(&after_set, &*self),
                same_shape(old(self), &*self),
                self.nodes@ == after_set.nodes@,
                self.links@ == after_set.links@,
                self.range_rust@ == after_set.range_rust@,
                connected(&*self, serial, enum0),
                has_pair(self.external_deps@, enum0, serial),
                forall|j: int|
                    1 <= j < i ==> {
                        let e = #[trigger] ancestry@[j];
                        let proot = old(self).scopes@[e.parent as int].serial_root;
                        &&& has_pair(self.lifted_serial_deps@, proot, e.enum_node)
                        &&& has_pair(self.external_deps@, e.enum_node, proot)
                        &&& self.scopes@[e.parent as int].has_external_deps
                    },
            decreases ancestry.len() - i,
        {
            let e = ancestry[i];
            let proot = self.scopes[e.parent].serial_root;
            let ghost before = *self;
            insert_pair(&mut self.lifted_serial_deps, proot, e.enum_node);
            insert_pair(&mut self.external_deps, e.enum_node, proot);
            proof {
                lemma_pairs_ok_insert(before.lifted_serial_deps@, self.lifted_serial_deps@, proot, e.enum_node, nn as int, nn as int);
                lemma_pairs_ok_insert(before.external_deps@, self.external_deps@, e.enum_node, proot, nn as int, nn as int);
                lemma_has_pair_grow(before.external_deps@, self.external_deps@, enum0, serial);
                assert forall|j: int| 1 <= j < i implies {
                    let e = #[trigger] ancestry@[j];
                    let proot = old(self).scopes@[e.parent as int].serial_root;
                    &&& has_pair(self.lifted_serial_deps@, proot, e.enum_node)
                    &&& has_pair(self.external_deps@, e.enum_node, proot)
                } by {
                    let e = ancestry@[j];
                    let proot = old(self).scopes@[e.parent as int].serial_root;
                    lemma_has_pair_grow(before.lifted_serial_deps@, self.lifted_serial_deps@, proot, e.enum_node);
                    lemma_has_pair_grow(before.external_deps@, self.external_deps@, e.enum_node, proot);
                }
            }
            self.mark_external(e.parent);
            i = i + 1;
        }
        let rscope = self.nodes[rust].scope;
        self.mark_external(rscope);
        let ghost before = *self;
        insert_pair(&mut self.lifted_serial_deps, root, rust);
        proof {
            lemma_pairs_ok_insert(before.lifted_serial_deps@, self.lifted_serial_deps@, root, rust, nn as int, nn as int);
            assert forall|j: int| 1 <= j < ancestry.len() implies {
                let e = #[trigger] ancestry@[j];
                let proot = old(self).scopes@[e.parent as int].serial_root;
                has_pair(self.lifted_serial_deps@, proot, e.enum_node)
            } by {
                let e = ancestry@[j];
                let proot = old(self).scopes@[e.parent as int].serial_root;
                lemma_has_pair_grow(before.lifted_serial_deps@, self.lifted_serial_deps@, proot, e.enum_node);
            }
        }
        self.links.push(Link { user: rust, primary: serial, redirect: Some(root) });
        proof {
            assert forall|i: int| 0 <= i < self.links.len() implies (#[trigger] self.links@[i]).user
                < self.nodes.len() && self.links@[i].primary < self.nodes.len() && opt_lt(
                self.links@[i].redirect,
                self.nodes.len() as int,
            ) by {
                if i < self.links.len() - 1 {
                    assert(self.links@[i] == old(self).links@[i]);
                }
            }
        }
        Ok(())
    }
}


impl Schema {
    /// Whether `serial`'s rust side could be connected to `rust` now.
    pub(crate) fn can_set_rust(&self, serial: usize, rust: usize) -> (out: Result<(), SchemaError>)
        requires
            serial < self.nodes.len(),
        ensures
            out == spec_set_rust(self, serial, rust),
    {
        let d = self.nodes[serial];
        match d.kind {
            NodeKind::Serial | NodeKind::SerialSegment | NodeKind::Align { .. } | NodeKind::Const
            | NodeKind::Obj | NodeKind::ObjField { .. } => Err(SchemaError::WrongNodeKind),
            NodeKind::FixedRange { .. } => Ok(()),
            _ => match d.rust {
                Some(r) => if r != rust {
                    Err(SchemaError::RustAlreadyConnected)
                } else {
                    Ok(())
                },
                None => Ok(()),
            },
        }
    }
}


/// Whether an id is free depends only on how scopes escape and on the ids
/// taken; taking another id changes nothing for it.
pub proof fn lemma_id_free_frame(
    a_scopes: Seq<ScopeData>,
    a_ids: Seq<(usize, String, Option<usize>)>,
    b_scopes: Seq<ScopeData>,
    b_ids: Seq<(usize, String, Option<usize>)>,
    x: (usize, String, Option<usize>),
    s: int,
    id: Seq<char>,
)
    requires
        a_scopes.len() == b_scopes.len(),
        forall|i: int| 0 <= i < a_scopes.len() ==> (#[trigger] a_scopes[i]).escape == b_scopes[i].escape,
        b_ids == a_ids.push(x),
        x.1@ != id,
    ensures
        id_free(a_scopes, a_ids, s, id) == id_free(b_scopes, b_ids, s, id),
    decreases s,
{
    assert(taken_at(a_ids, s, id) == taken_at(b_ids, s, id)) by {
        if taken_at(b_ids, s, id) {
            let i = choose|i: int| 0 <= i < b_ids.len() && b_ids[i].0 == s && (#[trigger] b_ids[i]).1@ == id;
            assert(i < a_ids.len());
            assert(a_ids[i] == b_ids[i]);
        }
        if taken_at(a_ids, s, id) {
            let i = choose|i: int| 0 <= i < a_ids.len() && a_ids[i].0 == s && (#[trigger] a_ids[i]).1@ == id;
            assert(a_ids[i] == b_ids[i]);
        }
    }
    if 0 <= s < a_scopes.len() {
        assert(a_scopes[s].escape == b_scopes[s].escape);
        match a_scopes[s].escape {
            Some(e) => {
                if e.parent < s {
                    lemma_id_free_frame(a_scopes, a_ids, b_scopes, b_ids, x, e.parent as int, id);
                }
            },
            None => {},
        }
    }
}


/// Ids taken in new scopes don't matter to the scopes that were there before:
/// those only escape to scopes made before them.
pub proof fn lemma_id_free_fresh(
    a_scopes: Seq<ScopeData>,
    a_ids: Seq<(usize, String, Option<usize>)>,
    b_scopes: Seq<ScopeData>,
    b_ids: Seq<(usize, String, Option<usize>)>,
    s: int,
    id: Seq<char>,
)
    requires
        a_scopes.len() <= b_scopes.len(),
        forall|i: int| 0 <= i < a_scopes.len() ==> (#[trigger] b_scopes[i]).escape == a_scopes[i].escape,
        a_ids.len() <= b_ids.len(),
        forall|i: int| 0 <= i < a_ids.len() ==> (#[trigger] b_ids[i]) == a_ids[i],
        forall|i: int| a_ids.len() <= i < b_ids.len() ==> (#[trigger] b_ids[i]).0 >= a_scopes.len(),
        0 <= s < a_scopes.len(),
    ensures
        id_free(a_scopes, a_ids, s, id) == id_free(b_scopes, b_ids, s, id),
    decreases s,
{
    assert(taken_at(a_ids, s, id) == taken_at(b_ids, s, id)) by {
        if taken_at(b_ids, s, id) {
            let i = choose|i: int| 0 <= i < b_ids.len() && b_ids[i].0 == s && (#[trigger] b_ids[i]).1@ == id;
            assert(i < a_ids.len());
            assert(a_ids[i] == b_ids[i]);
        }
        if taken_at(a_ids, s, id) {
            let i = choose|i: int| 0 <= i < a_ids.len() && a_ids[i].0 == s && (#[trigger] a_ids[i]).1@ == id;
            assert(a_ids[i] == b_ids[i]);
        }
    }
    assert(b_scopes[s].escape == a_scopes[s].escape);
    match a_scopes[s].escape {
        Some(e) => {
            if e.parent < s {
                lemma_id_free_fresh(a_scopes, a_ids, b_scopes, b_ids, e.parent as int, id);
            }
        },
        None => {},
    }
}


/// `line` is among `lines` (by text).
pub open spec fn has_line(lines: Seq<String>, line: Seq<char>) -> bool {
    exists|i: int| 0 <= i < lines.len() && (#[trigger] lines[i])@ == line
}

/// The UTF-8 bytes of a string, by which Rust orders strings.
pub open spec fn text_bytes(s: String) -> Seq<u8> {
    vstd::utf8::encode_utf8(s@)
}

/// `a` comes before `b` in byte order (a proper prefix comes first).
pub open spec fn text_lt(a: Seq<u8>, b: Seq<u8>) -> bool
    decreases a.len(),
{
    if a.len() == 0 {
        b.len() > 0
    } else if b.len() == 0 {
        false
    } else if a[0] != b[0] {
        a[0] < b[0]
    } else {
        text_lt(a.drop_first(), b.drop_first())
    }
}

/// The lines are in strictly increasing text order.
pub open spec fn lines_sorted(lines: Seq<String>) -> bool {
    forall|i: int, j: int|
        0 <= i < j < lines.len() ==> text_lt(text_bytes(#[trigger] lines[i]), text_bytes(#[trigger] lines[j]))
}

pub(crate) proof fn lemma_text_lt_irreflexive(a: Seq<u8>)
    ensures
        !text_lt(a, a),
    decreases a.len(),
{
    if a.len() > 0 {
        lemma_text_lt_irreflexive(a.drop_first());
    }
}

pub(crate) proof fn lemma_text_lt_total(a: Seq<u8>, b: Seq<u8>)
    ensures
        a =~= b || text_lt(a, b) || text_lt(b, a),
    decreases a.len(),
{
    if a.len() > 0 && b.len() > 0 && a[0] == b[0] {
        lemma_text_lt_total(a.drop_first(), b.drop_first());
        if a.drop_first() =~= b.drop_first() {
            assert(a =~= seq![a[0]] + a.drop_first());
            assert(b =~= seq![b[0]] + b.drop_first());
        }
    }
}

pub(crate) proof fn lemma_text_lt_transitive(a: Seq<u8>, b: Seq<u8>, c: Seq<u8>)
    requires
        text_lt(a, b),
        text_lt(b, c),
    ensures
        text_lt(a, c),
    decreases a.len(),
{
    if a.len() > 0 && b.len() > 0 && c.len() > 0 && a[0] == b[0] && b[0] == c[0] {
        lemma_text_lt_transitive(a.drop_first(), b.drop_first(), c.drop_first());
    }
}

/// Strings with the same bytes are the same text.
pub(crate) proof fn lemma_text_bytes_injective(a: String, b: String)
    requires
        text_bytes(a) == text_bytes(b),
    ensures
        a@ == b@,
{
    vstd::utf8::encode_utf8_decode_utf8(a@);
    vstd::utf8::encode_utf8_decode_utf8(b@);
}

/// Compares two byte strings in text order.
pub(crate) fn bytes_lt(a: &[u8], b: &[u8]) -> (out: bool)
    ensures
        out == text_lt(a@, b@),
{
    let mut i: usize = 0;
    assert(a@.skip(0) =~= a@ && b@.skip(0) =~= b@);
    while i < a.len() && i < b.len()
        invariant
            i <= a.len(),
            i <= b.len(),
            text_lt(a@, b@) == text_lt(a@.skip(i as int), b@.skip(i as int)),
        decreases a.len() - i,
    {
        if a[i] != b[i] {
            return a[i] < b[i];
        }
        assert(a@.skip(i as int).drop_first() =~= a@.skip(i + 1));
        assert(b@.skip(i as int).drop_first() =~= b@.skip(i + 1));
        i = i + 1;
    }
    i < b.len()
}

impl Schema {
    /// Adds an import line to the generated module, once per text; the lines
    /// are kept in text order, the order in which they are emitted.
    pub fn add_import(&mut self, import: String)
        requires
            old(self).wf(),
        ensures
            final(self).wf(),
            has_line(old(self).imports@, import@) ==> *final(self) == *old(self),
            !has_line(old(self).imports@, import@) ==> *final(self) == (Schema {
                imports: final(self).imports,
                ..*old(self)
            }) && exists|k: int|
                0 <= k <= old(self).imports.len() && final(self).imports@ == old(self).imports@.insert(k, import),
    {
        let ghost old_lines = self.imports@;
        let mut i: usize = 0;
        while i < self.imports.len()
            invariant
                i <= self.imports.len(),
                *self == *old(self),
                forall|k: int| 0 <= k < i ==> text_lt(text_bytes(#[trigger] self.imports@[k]), text_bytes(import)),
            ensures
                i <= self.imports.len(),
                *self == *old(self),
                forall|k: int| 0 <= k < i ==> text_lt(text_bytes(#[trigger] self.imports@[k]), text_bytes(import)),
                i < self.imports.len() ==> !text_lt(text_bytes(self.imports@[i as int]), text_bytes(import)),
            decreases self.imports.len() - i,
        {
            let line = &self.imports[i];
            if !bytes_lt(line.as_str().as_bytes(), import.as_str().as_bytes()) {
                break;
            }
            i = i + 1;
        }
        if i < self.imports.len() {
            let line = &self.imports[i];
            let same = !bytes_lt(import.as_str().as_bytes(), line.as_str().as_bytes());
            if same {
                proof {
                    lemma_text_lt_total(text_bytes(self.imports@[i as int]), text_bytes(import));
                    lemma_text_bytes_injective(self.imports@[i as int], import);
                }
                return;
            }
        }
        proof {
            assert forall|j: int| 0 <= j < old_lines.len() implies (#[trigger] old_lines[j])@ != import@ by {
                if old_lines[j]@ == import@ {
                    if j < i {
                        lemma_text_lt_irreflexive(text_bytes(import));
                    } else if j > i {
                        assert(text_lt(text_bytes(old_lines[i as int]), text_bytes(old_lines[j])));
                    }
                }
            }
            assert forall|j: int| i <= j < old_lines.len() implies text_lt(text_bytes(import), text_bytes(#[trigger] old_lines[j])) by {
                lemma_text_lt_total(text_bytes(old_lines[i as int]), text_bytes(import));
                if j > i {
                    lemma_text_lt_transitive(
                        text_bytes(import),
                        text_bytes(old_lines[i as int]),
                        text_bytes(old_lines[j]),
                    );
                }
            }
        }
        self.imports.insert(i, import);
        proof {
            let out = self.imports@;
            assert(out =~= old_lines.insert(i as int, import));
            assert forall|a: int, b: int| 0 <= a < b < out.len() implies text_lt(text_bytes(#[trigger] out[a]), text_bytes(#[trigger] out[b])) by {
                if a < i && b > i {
                    assert(out[b] == old_lines[b - 1]);
                } else if a > i {
                    assert(out[a] == old_lines[a - 1]);
                    assert(out[b] == old_lines[b - 1]);
                }
            }
        }
    }

    /// Adds a `pub mod` line to the generated module; the
    /// name must be a Rust identifier.
    pub fn add_mod(&mut self, name: String) -> (out: Result<(), SchemaError>)
        ensures
            !rust_ident_ok(name@) ==> out == Err::<(), SchemaError>(SchemaError::InvalidIdent) && *final(self)
                == *old(self),
            rust_ident_ok(name@) ==> out is Ok && *final(self) == (Schema { mods: final(self).mods, ..*old(self) })
                && final(self).mods@ == old(self).mods@.push(name),
    {
        if !is_rust_ident(name.as_str()) {
            return Err(SchemaError::InvalidIdent);
        }
        self.mods.push(name);
        Ok(())
    }

    /// Adds a line like `#[derive(Clone)]` before the definition of the type of
    /// enum or object node `node` (`add_type_attrs`).
    pub fn add_type_attrs(&mut self, node: usize, attrs: String)
        ensures
            *final(self) == (Schema { type_attrs: final(self).type_attrs, ..*old(self) }),
            final(self).type_attrs@ == old(self).type_attrs@.push((node, attrs)),
    {
        self.type_attrs.push((node, attrs));
    }
}

} // verus!
