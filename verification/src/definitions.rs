//! Rust types of values, and the check that every definition of an enum or a
//! struct of the same name agrees with the first one.
use vstd::prelude::*;
use crate::error::SchemaError;
use crate::node_int::IntType;
use crate::plan::{link_dep, seconds_of};
use crate::schema::{Link, NodeKind, Schema, Variant, text_bytes, text_lt};

verus! {

/// A Rust type, up to what tells types apart: `depth` nestings of
/// `std::vec::Vec` around either a byte array of a length or a type written as
/// text (a name, an integer type, a custom type).
pub enum TypeBase {
    ByteArray(usize),
    Text(String),
}

pub struct TypeKey {
    pub depth: usize,
    pub base: TypeBase,
}

/// A type key as a plain value: depth, byte array length (if it is one), text.
pub type KeyV = (nat, Option<usize>, Seq<char>);

impl TypeKey {
    pub open spec fn view_key(&self) -> KeyV {
        match self.base {
            TypeBase::ByteArray(n) => (self.depth as nat, Some(n), Seq::empty()),
            TypeBase::Text(t) => (self.depth as nat, None, t@),
        }
    }
}

/// The name of an integer's Rust type, like `u8` or `i32`.
pub open spec fn spec_int_text(t: IntType) -> Seq<char> {
    if t.signed {
        if t.rust_bits == 8 {
            "i8"@
        } else if t.rust_bits == 16 {
            "i16"@
        } else if t.rust_bits == 32 {
            "i32"@
        } else {
            "i64"@
        }
    } else {
        if t.rust_bits == 8 {
            "u8"@
        } else if t.rust_bits == 16 {
            "u16"@
        } else if t.rust_bits == 32 {
            "u32"@
        } else {
            "u64"@
        }
    }
}

pub fn int_text(t: IntType) -> (out: String)
    ensures
        out@ == spec_int_text(t),
{
    if t.signed {
        if t.rust_bits == 8 {
            String::from_str("i8")
        } else if t.rust_bits == 16 {
            String::from_str("i16")
        } else if t.rust_bits == 32 {
            String::from_str("i32")
        } else {
            String::from_str("i64")
        }
    } else {
        if t.rust_bits == 8 {
            String::from_str("u8")
        } else if t.rust_bits == 16 {
            String::from_str("u16")
        } else if t.rust_bits == 32 {
            String::from_str("u32")
        } else {
            String::from_str("u64")
        }
    }
}

/// The enum whose default variant has tag node `dummy` (the last such, there
/// is one).
pub open spec fn default_enum_of(variants: Seq<Variant>, dummy: usize) -> Option<usize>
    decreases variants.len(),
{
    if variants.len() == 0 {
        None
    } else if variants.last().default_tag == Some(dummy) {
        Some(variants.last().enum_node)
    } else {
        default_enum_of(variants.drop_last(), dummy)
    }
}

/// The input of `user` (the last, for nodes with one input).
pub open spec fn input_of(links: Seq<Link>, user: usize) -> Option<Link>
    decreases links.len(),
{
    if links.len() == 0 {
        None
    } else if links.last().user == user {
        Some(links.last())
    } else {
        input_of(links.drop_last(), user)
    }
}

/// The Rust type of node `n`'s value, looking through at most `fuel` nested
/// scopes; `UnknownType` for nodes without a value (or a cycle), `NoRustRoot`
/// for an array whose element scope has no rust root.
pub open spec fn spec_type_key(sc: &Schema, n: int, fuel: nat) -> Result<KeyV, SchemaError>
    decreases fuel,
{
    match sc.nodes@[n].kind {
        NodeKind::FixedBytes { len, .. } => Ok((0, Some(len), Seq::empty())),
        NodeKind::Int { int_type, .. } => Ok((0, None, spec_int_text(int_type))),
        NodeKind::DynamicBytes | NodeKind::DelimitedBytes | NodeKind::RemainingBytes => Ok((1, None, "u8"@)),
        NodeKind::Enum | NodeKind::Obj | NodeKind::Custom => Ok((0, None, sc.node_text@[n]@)),
        NodeKind::DynamicArray { element } => if fuel == 0 {
            Err(SchemaError::UnknownType)
        } else {
            match sc.scopes@[element as int].rust_root {
                None => Err(SchemaError::NoRustRoot),
                Some(r) => match spec_type_key(sc, r as int, (fuel - 1) as nat) {
                    Ok(k) => Ok((k.0 + 1, k.1, k.2)),
                    Err(e) => Err(e),
                },
            }
        },
        NodeKind::EnumDummy => if fuel == 0 {
            Err(SchemaError::UnknownType)
        } else {
            match default_enum_of(sc.variants@, n as usize) {
                None => Err(SchemaError::UnknownType),
                Some(e) => match input_of(sc.links@, e) {
                    None => Err(SchemaError::UnknownType),
                    Some(l) => spec_type_key(sc, l.primary as int, (fuel - 1) as nat),
                },
            }
        },
        _ => Err(SchemaError::UnknownType),
    }
}

fn find_default_enum(variants: &Vec<Variant>, dummy: usize) -> (out: Option<usize>)
    ensures
        out == default_enum_of(variants@, dummy),
{
    let mut i: usize = variants.len();
    assert(variants@.take(variants.len() as int) =~= variants@);
    while i > 0
        invariant
            i <= variants.len(),
            default_enum_of(variants@, dummy) == default_enum_of(variants@.take(i as int), dummy),
        decreases i,
    {
        assert(variants@.take(i as int).drop_last() =~= variants@.take(i - 1));
        if variants[i - 1].default_tag == Some(dummy) {
            return Some(variants[i - 1].enum_node);
        }
        i = i - 1;
    }
    None
}

fn find_input(links: &Vec<Link>, user: usize) -> (out: Option<Link>)
    ensures
        out == input_of(links@, user),
{
    let mut i: usize = links.len();
    assert(links@.take(links.len() as int) =~= links@);
    while i > 0
        invariant
            i <= links.len(),
            input_of(links@, user) == input_of(links@.take(i as int), user),
        decreases i,
    {
        assert(links@.take(i as int).drop_last() =~= links@.take(i - 1));
        if links[i - 1].user == user {
            return Some(links[i - 1]);
        }
        i = i - 1;
    }
    None
}

proof fn lemma_default_enum_bound(variants: Seq<Variant>, dummy: usize, n: int)
    requires
        forall|i: int| 0 <= i < variants.len() ==> (#[trigger] variants[i]).enum_node < n,
    ensures
        default_enum_of(variants, dummy) matches Some(e) ==> e < n,
    decreases variants.len(),
{
    if variants.len() > 0 {
        assert(variants.last() == variants[variants.len() - 1]);
        let v = variants.drop_last();
        assert forall|i: int| 0 <= i < v.len() implies (#[trigger] v[i]).enum_node < n by {
            assert(v[i] == variants[i]);
        }
        lemma_default_enum_bound(v, dummy, n);
    }
}

proof fn lemma_input_bound(links: Seq<Link>, user: usize, n: int)
    requires
        forall|i: int|
            0 <= i < links.len() ==> (#[trigger] links[i]).primary < n && match links[i].redirect {
                Some(r) => r < n,
                None => true,
            },
    ensures
        input_of(links, user) matches Some(l) ==> l.primary < n && link_dep(l) < n,
    decreases links.len(),
{
    if links.len() > 0 {
        assert(links.last() == links[links.len() - 1]);
        let v = links.drop_last();
        assert forall|i: int| 0 <= i < v.len() implies (#[trigger] v[i]).primary < n && match v[i].redirect {
            Some(r) => r < n,
            None => true,
        } by {
            assert(v[i] == links[i]);
        }
        lemma_input_bound(v, user, n);
    }
}

impl Schema {
    /// The Rust type of node `n`'s value (`rust_type` of each node kind).
    pub fn type_key(&self, n: usize, fuel: usize) -> (out: Result<TypeKey, SchemaError>)
        requires
            self.wf(),
            n < self.nodes.len(),
            fuel < usize::MAX,
        ensures
            match spec_type_key(self, n as int, fuel as nat) {
                Ok(k) => out is Ok && out->Ok_0.view_key() == k,
                Err(e) => out matches Err(e2) && e2 == e,
            },
            out matches Ok(k) ==> k.depth <= fuel + 1,
        decreases fuel,
    {
        proof {
            assert(crate::schema::node_ok(self.nodes@[n as int], self.nodes.len() as int, self.scopes.len() as int));
        }
        match self.nodes[n].kind {
            NodeKind::FixedBytes { len, .. } => Ok(TypeKey { depth: 0, base: TypeBase::ByteArray(len) }),
            NodeKind::Int { int_type, .. } => Ok(TypeKey { depth: 0, base: TypeBase::Text(int_text(int_type)) }),
            NodeKind::DynamicBytes | NodeKind::DelimitedBytes | NodeKind::RemainingBytes => {
                Ok(TypeKey { depth: 1, base: TypeBase::Text(String::from_str("u8")) })
            },
            NodeKind::Enum | NodeKind::Obj | NodeKind::Custom => {
                Ok(TypeKey { depth: 0, base: TypeBase::Text(self.node_text[n].clone()) })
            },
            NodeKind::DynamicArray { element } => {
                if fuel == 0 {
                    return Err(SchemaError::UnknownType);
                }
                proof {
                    assert(crate::schema::scope_ok(
                        self.scopes@[element as int],
                        element as int,
                        self.nodes.len() as int,
                        self.variants.len() as int,
                    ));
                }
                match self.scopes[element].rust_root {
                    None => Err(SchemaError::NoRustRoot),
                    Some(r) => match self.type_key(r, fuel - 1) {
                        Ok(k) => Ok(TypeKey { depth: k.depth + 1, base: k.base }),
                        Err(e) => Err(e),
                    },
                }
            },
            NodeKind::EnumDummy => {
                if fuel == 0 {
                    return Err(SchemaError::UnknownType);
                }
                proof {
                    lemma_default_enum_bound(self.variants@, n, self.nodes.len() as int);
                    lemma_input_bound(self.links@, n, self.nodes.len() as int);
                }
                match find_default_enum(&self.variants, n) {
                    None => Err(SchemaError::UnknownType),
                    Some(e) => {
                        proof {
                            lemma_input_bound(self.links@, e, self.nodes.len() as int);
                        }
                        match find_input(&self.links, e) {
                            None => Err(SchemaError::UnknownType),
                            Some(l) => self.type_key(l.primary, fuel - 1),
                        }
                    },
                }
            },
            _ => Err(SchemaError::UnknownType),
        }
    }
}


// ## Definitions
/// A definition's members (name and type of each field or variant, in order)
/// and, for an enum, its default variant.
pub type DefnV = (Seq<(Seq<char>, KeyV)>, Option<(Seq<char>, KeyV)>);

pub type Members = Vec<(String, TypeKey)>;

pub open spec fn members_view(m: Seq<(String, TypeKey)>) -> Seq<(Seq<char>, KeyV)> {
    m.map_values(|x: (String, TypeKey)| (x.0@, x.1.view_key()))
}

/// The members of a struct with fields `fs`: each field's name and the type of
/// its value; the first definition of a struct takes the value's own node, the
/// others the node the value is redirected to.
pub open spec fn field_members(sc: &Schema, fs: Seq<usize>, first: bool, fuel: nat) -> Result<
    Seq<(Seq<char>, KeyV)>,
    SchemaError,
>
    decreases fs.len(),
{
    if fs.len() == 0 {
        Ok(Seq::empty())
    } else {
        match field_members(sc, fs.drop_last(), first, fuel) {
            Err(e) => Err(e),
            Ok(m) => {
                let f = fs.last();
                match input_of(sc.links@, f) {
                    None => Err(SchemaError::UnknownType),
                    Some(l) => match spec_type_key(sc, (if first { l.primary } else { link_dep(l) }) as int, fuel) {
                        Err(e) => Err(e),
                        Ok(k) => Ok(m.push((sc.node_text@[f as int]@, k))),
                    },
                }
            },
        }
    }
}

/// The type of a variant: that of its element scope's rust root.
pub open spec fn variant_key(sc: &Schema, v: int, fuel: nat) -> Result<KeyV, SchemaError> {
    match sc.scopes@[sc.variants@[v].element as int].rust_root {
        None => Err(SchemaError::NoRustRoot),
        Some(r) => spec_type_key(sc, r as int, fuel),
    }
}

/// The variants among the first `k` of enum `e`: the others as members, the
/// default one apart.
pub open spec fn variant_members(sc: &Schema, e: usize, k: int, fuel: nat) -> Result<DefnV, SchemaError>
    decreases k,
{
    if k <= 0 {
        Ok((Seq::empty(), None))
    } else {
        match variant_members(sc, e, k - 1, fuel) {
            Err(err) => Err(err),
            Ok(d) => {
                let v = sc.variants@[k - 1];
                if v.enum_node != e {
                    Ok(d)
                } else {
                    match variant_key(sc, k - 1, fuel) {
                        Err(err) => Err(err),
                        Ok(key) => {
                            let m = (sc.variant_names@[k - 1]@, key);
                            if v.default_tag is Some {
                                Ok((d.0, Some(m)))
                            } else {
                                Ok((d.0.push(m), d.1))
                            }
                        },
                    }
                }
            },
        }
    }
}

/// What definition node `d` (an enum or a struct) defines.
#[verifier::opaque]
pub open spec fn spec_defn(sc: &Schema, d: usize, first: bool) -> Result<DefnV, SchemaError> {
    let fuel = sc.nodes.len() as nat;
    if sc.nodes@[d as int].kind is Obj {
        match field_members(sc, seconds_of(sc.fields@, d as int), first, fuel) {
            Err(e) => Err(e),
            Ok(m) => Ok((m, None)),
        }
    } else {
        variant_members(sc, d, sc.variants.len() as int, fuel)
    }
}

pub open spec fn is_defn(sc: &Schema, d: int) -> bool {
    sc.nodes@[d].kind is Obj || sc.nodes@[d].kind is Enum
}

/// `a` and `b` define the same kind of type under the same name.
pub open spec fn same_defn(sc: &Schema, a: int, b: int) -> bool {
    &&& is_defn(sc, a)
    &&& sc.nodes@[a].kind == sc.nodes@[b].kind
    &&& sc.node_text@[a]@ == sc.node_text@[b]@
}

/// `d` is the first definition of its name.
#[verifier::opaque]
pub open spec fn is_first_defn(sc: &Schema, d: int) -> bool {
    forall|j: int| 0 <= j < d ==> !same_defn(sc, j, d)
}

/// Some member of `m` is named `name`.
pub open spec fn name_in(m: Seq<(Seq<char>, KeyV)>, name: Seq<char>) -> bool {
    exists|a: int| 0 <= a < m.len() && (#[trigger] m[a]).0 == name
}

/// The last member of `m` named `name`, if any.
pub open spec fn last_named(m: Seq<(Seq<char>, KeyV)>, name: Seq<char>) -> Option<KeyV>
    decreases m.len(),
{
    if m.len() == 0 {
        None
    } else if m.last().0 == name {
        Some(m.last().1)
    } else {
        last_named(m.drop_last(), name)
    }
}

/// A later definition `o` agrees with the first one `f`: the first names each
/// member once, both name the same members, each member of `o` (the last of a
/// repeated name) has the type the first gives it, and both have a default
/// variant of the same type or neither has one.
pub open spec fn defns_agree(f: DefnV, o: DefnV) -> bool {
    &&& forall|i: int, j: int| 0 <= i < j < f.0.len() ==> (#[trigger] f.0[i]).0 != (#[trigger] f.0[j]).0
    &&& forall|i: int| 0 <= i < f.0.len() ==> last_named(o.0, (#[trigger] f.0[i]).0) == Some(f.0[i].1)
    &&& forall|j: int| 0 <= j < o.0.len() ==> name_in(f.0, (#[trigger] o.0[j]).0)
    &&& match (f.1, o.1) {
        (None, None) => true,
        (Some(a), Some(b)) => a.1 == b.1,
        _ => false,
    }
}

/// The first error in working out the definitions among the first `k` nodes.
pub open spec fn defn_error(sc: &Schema, k: int) -> Option<SchemaError>
    decreases k,
{
    if k <= 0 {
        None
    } else {
        match defn_error(sc, k - 1) {
            Some(e) => Some(e),
            None => if is_defn(sc, k - 1) {
                match spec_defn(sc, (k - 1) as usize, is_first_defn(sc, k - 1)) {
                    Err(e) => Some(e),
                    Ok(_) => None,
                }
            } else {
                None
            },
        }
    }
}

/// Every later definition agrees with the first of its name.
pub open spec fn defns_consistent(sc: &Schema) -> bool {
    forall|a: int, b: int|
        0 <= a < b < sc.nodes.len() && is_first_defn(sc, a) && #[trigger] same_defn(sc, a, b) ==> defns_agree(
            spec_defn(sc, a as usize, true)->Ok_0,
            #[trigger] spec_defn(sc, b as usize, false)->Ok_0,
        )
}

/// The outcome of the definition check of `Schema::generate`: the first failure
/// to work out a definition, else whether all definitions agree.
pub open spec fn spec_check_definitions(sc: &Schema) -> Result<(), SchemaError> {
    match defn_error(sc, sc.nodes.len() as int) {
        Some(e) => Err(e),
        None => if defns_consistent(sc) {
            Ok(())
        } else {
            Err(SchemaError::InconsistentDefinitions)
        },
    }
}


proof fn lemma_field_members_prefix_err(sc: &Schema, fs: Seq<usize>, k: int, first: bool, fuel: nat)
    requires
        0 <= k <= fs.len(),
        field_members(sc, fs.take(k), first, fuel) is Err,
    ensures
        field_members(sc, fs, first, fuel) == field_members(sc, fs.take(k), first, fuel),
    decreases fs.len() - k,
{
    if k < fs.len() {
        assert(fs.take(k + 1).drop_last() =~= fs.take(k));
        lemma_field_members_prefix_err(sc, fs, k + 1, first, fuel);
    } else {
        assert(fs.take(k) =~= fs);
    }
}

proof fn lemma_variant_members_err(sc: &Schema, e: usize, k: int, m: int, fuel: nat)
    requires
        0 <= k <= m,
        variant_members(sc, e, k, fuel) is Err,
    ensures
        variant_members(sc, e, m, fuel) == variant_members(sc, e, k, fuel),
    decreases m - k,
{
    if k < m {
        lemma_variant_members_err(sc, e, k, m - 1, fuel);
    }
}

pub open spec fn defn_view(d: (Members, Option<(String, TypeKey)>)) -> DefnV {
    (
        members_view(d.0@),
        match d.1 {
            Some(x) => Some((x.0@, x.1.view_key())),
            None => None,
        },
    )
}

fn key_eq(a: &TypeKey, b: &TypeKey) -> (out: bool)
    ensures
        out == (a.view_key() == b.view_key()),
{
    if a.depth != b.depth {
        return false;
    }
    match (&a.base, &b.base) {
        (TypeBase::ByteArray(x), TypeBase::ByteArray(y)) => *x == *y,
        (TypeBase::Text(x), TypeBase::Text(y)) => *x == *y,
        _ => false,
    }
}

fn clone_key(k: &TypeKey) -> (out: TypeKey)
    ensures
        out.view_key() == k.view_key(),
{
    match &k.base {
        TypeBase::ByteArray(n) => TypeKey { depth: k.depth, base: TypeBase::ByteArray(*n) },
        TypeBase::Text(t) => TypeKey { depth: k.depth, base: TypeBase::Text(t.clone()) },
    }
}

impl Schema {
    /// The members of struct `o` (see `field_members`).
    fn field_defn(&self, o: usize, first: bool) -> (out: Result<Members, SchemaError>)
        requires
            self.wf(),
            self.nodes.len() < usize::MAX,
        ensures
            match field_members(self, seconds_of(self.fields@, o as int), first, self.nodes.len() as nat) {
                Err(e) => out matches Err(e2) && e2 == e,
                Ok(m) => out is Ok && members_view(out->Ok_0@) == m,
            },
    {
        let fuel = self.nodes.len();
        let mut fs: Vec<usize> = Vec::new();
        crate::plan::push_seconds(&self.fields, o, &mut fs);
        proof {
            assert(fs@ =~= seconds_of(self.fields@, o as int));
            crate::plan::lemma_seconds_bound(self.fields@, o as int, self.nodes.len() as int, self.nodes.len() as int);
            lemma_input_bound(self.links@, 0, self.nodes.len() as int);
        }
        let mut out: Members = Vec::new();
        let mut j: usize = 0;
        assert(members_view(out@) =~= Seq::<(Seq<char>, KeyV)>::empty());
        assert(fs@.take(0) =~= Seq::<usize>::empty());
        while j < fs.len()
            invariant
                self.wf(),
                fuel == self.nodes.len(),
                fuel < usize::MAX,
                j <= fs.len(),
                fs@ == seconds_of(self.fields@, o as int),
                forall|i: int| 0 <= i < fs.len() ==> #[trigger] fs@[i] < self.nodes.len(),
                field_members(self, fs@.take(j as int), first, fuel as nat) is Ok,
                members_view(out@) == field_members(self, fs@.take(j as int), first, fuel as nat)->Ok_0,
            decreases fs.len() - j,
        {
            let f = fs[j];
            proof {
                assert(fs@.take(j + 1).drop_last() =~= fs@.take(j as int));
                assert(fs@.take(j + 1).last() == f);
                lemma_input_bound(self.links@, f, self.nodes.len() as int);
            }
            let l = match find_input(&self.links, f) {
                None => {
                    proof {
                        lemma_field_members_prefix_err(self, fs@, j + 1, first, fuel as nat);
                    }
                    return Err(SchemaError::UnknownType);
                },
                Some(l) => l,
            };
            let src = if first {
                l.primary
            } else {
                match l.redirect {
                    Some(r) => r,
                    None => l.primary,
                }
            };
            let k = match self.type_key(src, fuel) {
                Err(e) => {
                    proof {
                        lemma_field_members_prefix_err(self, fs@, j + 1, first, fuel as nat);
                    }
                    return Err(e);
                },
                Ok(k) => k,
            };
            let name = self.node_text[f].clone();
            out.push((name, k));
            j = j + 1;
            proof {
                assert(members_view(out@) =~= field_members(self, fs@.take(j as int), first, fuel as nat)->Ok_0);
            }
        }
        proof {
            assert(fs@.take(fs.len() as int) =~= fs@);
        }
        Ok(out)
    }

    /// The variants of enum `e` (see `variant_members`).
    fn enum_defn(&self, e: usize) -> (out: Result<(Members, Option<(String, TypeKey)>), SchemaError>)
        requires
            self.wf(),
            self.nodes.len() < usize::MAX,
        ensures
            match variant_members(self, e, self.variants.len() as int, self.nodes.len() as nat) {
                Err(err) => out matches Err(e2) && e2 == err,
                Ok(d) => out is Ok && defn_view(out->Ok_0) == d,
            },
    {
        let fuel = self.nodes.len();
        let mut members: Members = Vec::new();
        let mut default: Option<(String, TypeKey)> = None;
        let mut k: usize = 0;
        assert(members_view(members@) =~= Seq::<(Seq<char>, KeyV)>::empty());
        while k < self.variants.len()
            invariant
                self.wf(),
                fuel == self.nodes.len(),
                fuel < usize::MAX,
                k <= self.variants.len(),
                variant_members(self, e, k as int, fuel as nat) is Ok,
                defn_view((members, default)) == variant_members(self, e, k as int, fuel as nat)->Ok_0,
            decreases self.variants.len() - k,
        {
            let v = self.variants[k];
            if v.enum_node == e {
                proof {
                    assert(crate::schema::scope_ok(
                        self.scopes@[v.element as int],
                        v.element as int,
                        self.nodes.len() as int,
                        self.variants.len() as int,
                    ));
                }
                let key = match self.scopes[v.element].rust_root {
                    None => {
                        proof {
                            lemma_variant_members_err(self, e, k + 1, self.variants.len() as int, fuel as nat);
                        }
                        return Err(SchemaError::NoRustRoot);
                    },
                    Some(r) => match self.type_key(r, fuel) {
                        Err(err) => {
                            proof {
                                lemma_variant_members_err(self, e, k + 1, self.variants.len() as int, fuel as nat);
                            }
                            return Err(err);
                        },
                        Ok(key) => key,
                    },
                };
                let name = self.variant_names[k].clone();
                if v.default_tag.is_some() {
                    default = Some((name, key));
                } else {
                    members.push((name, key));
                    proof {
                        assert(members_view(members@) =~= members_view(members@.drop_last()).push(
                            (members@.last().0@, members@.last().1.view_key()),
                        ));
                    }
                }
            }
            k = k + 1;
        }
        Ok((members, default))
    }
}


fn find_last_named(m: &Members, name: &String) -> (out: Option<TypeKey>)
    ensures
        match last_named(members_view(m@), name@) {
            None => out is None,
            Some(k) => out matches Some(x) && x.view_key() == k,
        },
{
    let mut i: usize = m.len();
    assert(members_view(m@).take(m.len() as int) =~= members_view(m@));
    while i > 0
        invariant
            i <= m.len(),
            last_named(members_view(m@), name@) == last_named(members_view(m@).take(i as int), name@),
        decreases i,
    {
        assert(members_view(m@).take(i as int).drop_last() =~= members_view(m@).take(i - 1));
        if m[i - 1].0 == *name {
            return Some(clone_key(&m[i - 1].1));
        }
        i = i - 1;
    }
    None
}

/// Whether a later definition agrees with the first (`defns_agree`).
pub fn agree(f: &(Members, Option<(String, TypeKey)>), o: &(Members, Option<(String, TypeKey)>)) -> (out: bool)
    ensures
        out == defns_agree(defn_view(*f), defn_view(*o)),
{
    let ghost fv = defn_view(*f);
    let ghost ov = defn_view(*o);
    let fm = &f.0;
    let om = &o.0;
    assert(fv.0.len() == fm.len());
    assert(ov.0.len() == om.len());
    assert(forall|a: int| 0 <= a < fm.len() ==> #[trigger] fv.0[a] == (fm@[a].0@, fm@[a].1.view_key()));
    assert(forall|a: int| 0 <= a < om.len() ==> #[trigger] ov.0[a] == (om@[a].0@, om@[a].1.view_key()));
    // The first names each member once
    let mut i: usize = 0;
    while i < fm.len()
        invariant
            fv == defn_view(*f),
            ov == defn_view(*o),
            fm@ == f.0@,
            fv.0.len() == fm.len(),
            forall|a: int| 0 <= a < fm.len() ==> #[trigger] fv.0[a] == (fm@[a].0@, fm@[a].1.view_key()),
            i <= fm.len(),
            forall|a: int, b: int| 0 <= a < b < fm.len() && a < i ==> (#[trigger] fv.0[a]).0 != (#[trigger] fv.0[b]).0,
        decreases fm.len() - i,
    {
        let mut j: usize = i + 1;
        while j < fm.len()
            invariant
                fv == defn_view(*f),
                ov == defn_view(*o),
                fm@ == f.0@,
                fv.0.len() == fm.len(),
                forall|a: int| 0 <= a < fm.len() ==> #[trigger] fv.0[a] == (fm@[a].0@, fm@[a].1.view_key()),
                i < j <= fm.len(),
                forall|a: int, b: int| 0 <= a < b < fm.len() && a < i ==> (#[trigger] fv.0[a]).0 != (#[trigger] fv.0[b]).0,
                forall|b: int| i < b < j ==> fv.0[i as int].0 != (#[trigger] fv.0[b]).0,
            decreases fm.len() - j,
        {
            if fm[i].0 == fm[j].0 {
                assert(fv.0[i as int].0 == fv.0[j as int].0);
                return false;
            }
            j = j + 1;
        }
        i = i + 1;
    }
    // Each member of the first has its type in the other
    let mut i: usize = 0;
    while i < fm.len()
        invariant
            fv == defn_view(*f),
            ov == defn_view(*o),
            fm@ == f.0@,
            om@ == o.0@,
            fv.0.len() == fm.len(),
            ov == defn_view(*o),
            forall|a: int| 0 <= a < fm.len() ==> #[trigger] fv.0[a] == (fm@[a].0@, fm@[a].1.view_key()),
            i <= fm.len(),
            forall|a: int| 0 <= a < i ==> last_named(ov.0, (#[trigger] fv.0[a]).0) == Some(fv.0[a].1),
            forall|a: int, b: int| 0 <= a < b < fm.len() ==> (#[trigger] fv.0[a]).0 != (#[trigger] fv.0[b]).0,
        decreases fm.len() - i,
    {
        assert(fv.0[i as int] == (fm@[i as int].0@, fm@[i as int].1.view_key()));
        match find_last_named(om, &fm[i].0) {
            None => {
                return false;
            },
            Some(k) => {
                if !key_eq(&k, &fm[i].1) {
                    return false;
                }
            },
        }
        i = i + 1;
    }
    // The other names nothing the first doesn't
    let mut j: usize = 0;
    while j < om.len()
        invariant
            fv == defn_view(*f),
            ov == defn_view(*o),
            fm@ == f.0@,
            om@ == o.0@,
            fv.0.len() == fm.len(),
            ov.0.len() == om.len(),
            forall|a: int| 0 <= a < fm.len() ==> #[trigger] fv.0[a] == (fm@[a].0@, fm@[a].1.view_key()),
            forall|a: int| 0 <= a < om.len() ==> #[trigger] ov.0[a] == (om@[a].0@, om@[a].1.view_key()),
            j <= om.len(),
            forall|b: int| 0 <= b < j ==> name_in(fv.0, (#[trigger] ov.0[b]).0),
            forall|a: int, b: int| 0 <= a < b < fm.len() ==> (#[trigger] fv.0[a]).0 != (#[trigger] fv.0[b]).0,
            forall|a: int| 0 <= a < fm.len() ==> last_named(ov.0, (#[trigger] fv.0[a]).0) == Some(fv.0[a].1),
        decreases om.len() - j,
    {
        let mut found = false;
        let mut i: usize = 0;
        while i < fm.len()
            invariant
                fv == defn_view(*f),
                ov == defn_view(*o),
                fm@ == f.0@,
                om@ == o.0@,
                fv.0.len() == fm.len(),
                ov.0.len() == om.len(),
                forall|a: int| 0 <= a < fm.len() ==> #[trigger] fv.0[a] == (fm@[a].0@, fm@[a].1.view_key()),
                forall|a: int| 0 <= a < om.len() ==> #[trigger] ov.0[a] == (om@[a].0@, om@[a].1.view_key()),
                j < om.len(),
                i <= fm.len(),
                forall|a: int, b: int| 0 <= a < b < fm.len() ==> (#[trigger] fv.0[a]).0 != (#[trigger] fv.0[b]).0,
                forall|a: int| 0 <= a < fm.len() ==> last_named(ov.0, (#[trigger] fv.0[a]).0) == Some(fv.0[a].1),
                forall|b: int| 0 <= b < j ==> name_in(fv.0, (#[trigger] ov.0[b]).0),
                found ==> name_in(fv.0, ov.0[j as int].0),
                !found ==> forall|a: int| 0 <= a < i ==> (#[trigger] fv.0[a]).0 != ov.0[j as int].0,
            decreases fm.len() - i,
        {
            if fm[i].0 == om[j].0 {
                found = true;
                assert(fv.0[i as int].0 == ov.0[j as int].0);
            }
            i = i + 1;
        }
        if !found {
            assert(!name_in(fv.0, ov.0[j as int].0));
            return false;
        }
        j = j + 1;
    }
    match (&f.1, &o.1) {
        (None, None) => true,
        (Some(a), Some(b)) => key_eq(&a.1, &b.1),
        _ => false,
    }
}


proof fn lemma_defn_error_stays(sc: &Schema, k: int, m: int)
    requires
        0 <= k <= m,
        defn_error(sc, k) is Some,
    ensures
        defn_error(sc, m) == defn_error(sc, k),
    decreases m - k,
{
    if k < m {
        lemma_defn_error_stays(sc, k, m - 1);
    }
}

impl Schema {
    fn same_defn_exec(&self, a: usize, b: usize) -> (out: bool)
        requires
            a < self.nodes.len(),
            b < self.nodes.len(),
            self.node_text.len() == self.nodes.len(),
        ensures
            out == same_defn(self, a as int, b as int),
    {
        let ka = self.nodes[a].kind;
        let is_d = match ka {
            NodeKind::Obj | NodeKind::Enum => true,
            _ => false,
        };
        is_d && ka == self.nodes[b].kind && self.node_text[a] == self.node_text[b]
    }

    fn is_first_defn_exec(&self, d: usize) -> (out: bool)
        requires
            d < self.nodes.len(),
            self.node_text.len() == self.nodes.len(),
        ensures
            out == is_first_defn(self, d as int),
    {
        let mut j: usize = 0;
        while j < d
            invariant
                j <= d < self.nodes.len(),
                self.node_text.len() == self.nodes.len(),
                forall|k: int| 0 <= k < j ==> !same_defn(self, k, d as int),
            decreases d - j,
        {
            if self.same_defn_exec(j, d) {
                proof {
                    reveal(is_first_defn);
                }
                return false;
            }
            j = j + 1;
        }
        proof {
            reveal(is_first_defn);
        }
        true
    }

    /// The first definition of the name `b` defines.
    fn first_of(&self, b: usize) -> (out: usize)
        requires
            b < self.nodes.len(),
            self.node_text.len() == self.nodes.len(),
            is_defn(self, b as int),
            !is_first_defn(self, b as int),
        ensures
            out < b,
            same_defn(self, out as int, b as int),
            is_first_defn(self, out as int),
    {
        proof {
            reveal(is_first_defn);
        }
        let mut j: usize = 0;
        while j < b
            invariant
                j <= b < self.nodes.len(),
                self.node_text.len() == self.nodes.len(),
                is_defn(self, b as int),
                !is_first_defn(self, b as int),
                forall|k: int| 0 <= k < j ==> !same_defn(self, k, b as int),
            decreases b - j,
        {
            if self.same_defn_exec(j, b) {
                proof {
                    reveal(is_first_defn);
                    assert forall|k: int| 0 <= k < j implies !same_defn(self, k, j as int) by {
                        if same_defn(self, k, j as int) {
                            assert(same_defn(self, k, b as int));
                        }
                    }
                }
                return j;
            }
            j = j + 1;
        }
        j
    }

    fn defn(&self, d: usize, first: bool) -> (out: Result<(Members, Option<(String, TypeKey)>), SchemaError>)
        requires
            self.wf(),
            self.nodes.len() < usize::MAX,
            d < self.nodes.len(),
        ensures
            match spec_defn(self, d, first) {
                Err(e) => out matches Err(e2) && e2 == e,
                Ok(v) => out is Ok && defn_view(out->Ok_0) == v,
            },
    {
        proof {
            reveal(spec_defn);
        }
        match self.nodes[d].kind {
            NodeKind::Obj => match self.field_defn(d, first) {
                Err(e) => Err(e),
                Ok(m) => Ok((m, None)),
            },
            _ => self.enum_defn(d),
        }
    }

    /// What node `d` defines, when it is a definition (an empty placeholder
    /// otherwise).
    fn defn_at(&self, d: usize) -> (out: Result<(Members, Option<(String, TypeKey)>), SchemaError>)
        requires
            self.wf(),
            self.nodes.len() < usize::MAX,
            d < self.nodes.len(),
            defn_error(self, d as int) is None,
        ensures
            out matches Err(e) ==> defn_error(self, d + 1) == Some(e),
            out is Ok ==> defn_error(self, d + 1) is None,
            out is Ok && is_defn(self, d as int) ==> spec_defn(self, d, is_first_defn(self, d as int)) is Ok
                && defn_view(out->Ok_0) == spec_defn(self, d, is_first_defn(self, d as int))->Ok_0,
    {
        let is_d = match self.nodes[d].kind {
            NodeKind::Obj | NodeKind::Enum => true,
            _ => false,
        };
        if is_d {
            let first = self.is_first_defn_exec(d);
            self.defn(d, first)
        } else {
            Ok((Vec::new(), None))
        }
    }

    /// What every definition node defines, in node order; the first failure
    /// to work one out.
    fn collect_defns(&self) -> (out: Result<Vec<(Members, Option<(String, TypeKey)>)>, SchemaError>)
        requires
            self.wf(),
            self.nodes.len() < usize::MAX,
        ensures
            out matches Err(e) ==> defn_error(self, self.nodes.len() as int) == Some(e),
            out is Ok ==> defn_error(self, self.nodes.len() as int) is None && out->Ok_0.len() == self.nodes.len(),
            out is Ok ==> forall|k: int|
                0 <= k < self.nodes.len() && #[trigger] is_defn(self, k) ==> spec_defn(self, k as usize, is_first_defn(self, k)) is Ok,
            out is Ok ==> forall|k: int|
                0 <= k < self.nodes.len() && is_defn(self, k) ==> defn_view(#[trigger] out->Ok_0@[k]) == spec_defn(self, k as usize, is_first_defn(self, k))->Ok_0,
    {
        let n = self.nodes.len();
        let mut defs: Vec<(Members, Option<(String, TypeKey)>)> = Vec::new();
        let mut d: usize = 0;
        while d < n
            invariant
                self.wf(),
                n == self.nodes.len(),
                n < usize::MAX,
                d <= n,
                defs.len() == d,
                defn_error(self, d as int) is None,
                forall|k: int|
                    0 <= k < d && #[trigger] is_defn(self, k) ==> spec_defn(self, k as usize, is_first_defn(self, k)) is Ok,
                forall|k: int|
                    0 <= k < d && is_defn(self, k) ==> defn_view(#[trigger] defs@[k]) == spec_defn(self, k as usize, is_first_defn(self, k))->Ok_0,
            decreases n - d,
        {
            let ghost old_defs = defs@;
            match self.defn_at(d) {
                Err(e) => {
                    proof {
                        lemma_defn_error_stays(self, d + 1, n as int);
                    }
                    return Err(e);
                },
                Ok(v) => {
                    defs.push(v);
                    proof {
                        assert(defs@[d as int] == v);
                    }
                },
            }
            proof {
                assert forall|k: int|
                    0 <= k < d + 1 && is_defn(self, k) implies defn_view(#[trigger] defs@[k]) == spec_defn(self, k as usize, is_first_defn(self, k))->Ok_0 by {
                    if k < d {
                        assert(defs@[k] == old_defs[k]);
                    }
                }
            }
            d = d + 1;
        }
        Ok(defs)
    }

    /// Checks that every later definition of an enum or a struct agrees with the
    /// first definition of the same name (part of `Schema::generate`).
    #[verifier::rlimit(40)]
    pub fn check_definitions(&self) -> (out: Result<(), SchemaError>)
        requires
            self.wf(),
            self.nodes.len() < usize::MAX,
        ensures
            out == spec_check_definitions(self),
    {
        let n = self.nodes.len();
        let defs = match self.collect_defns() {
            Err(e) => {
                return Err(e);
            },
            Ok(x) => x,
        };
        assert(defn_error(self, n as int) is None);
        let mut b: usize = 0;
        while b < n
            invariant
                self.wf(),
                n == self.nodes.len(),
                b <= n,
                defs.len() == n,
                defn_error(self, n as int) is None,
                forall|k: int|
                    0 <= k < n && #[trigger] is_defn(self, k) ==> spec_defn(self, k as usize, is_first_defn(self, k)) is Ok,
                forall|k: int|
                    0 <= k < n && is_defn(self, k) ==> defn_view(#[trigger] defs@[k]) == spec_defn(self, k as usize, is_first_defn(self, k))->Ok_0,
                forall|a: int, c: int|
                    0 <= a < c < b && is_first_defn(self, a) && #[trigger] same_defn(self, a, c) ==> defns_agree(
                        spec_defn(self, a as usize, true)->Ok_0,
                        #[trigger] spec_defn(self, c as usize, false)->Ok_0,
                    ),
            decreases n - b,
        {
            let is_d = match self.nodes[b].kind {
                NodeKind::Obj | NodeKind::Enum => true,
                _ => false,
            };
            let first_b = if is_d {
                self.is_first_defn_exec(b)
            } else {
                true
            };
            if is_d && !first_b {
                let a = self.first_of(b);
                let ok = agree(&defs[a], &defs[b]);
                proof {
                    assert(is_defn(self, a as int));
                    let _x = defs@[a as int];
                    let _y = defs@[b as int];
                }
                if !ok {
                    return Err(SchemaError::InconsistentDefinitions);
                }
                proof {
                    reveal(is_first_defn);
                    assert forall|a2: int| 0 <= a2 < b && is_first_defn(self, a2) && #[trigger] same_defn(self, a2, b as int)
                        implies a2 == a by {
                        if a2 < a {
                            assert(same_defn(self, a2, a as int));
                        } else if a < a2 {
                            assert(same_defn(self, a as int, a2));
                        }
                    }
                }
            } else {
                proof {
                    reveal(is_first_defn);
                    assert forall|a2: int| 0 <= a2 < b && is_first_defn(self, a2) implies !#[trigger] same_defn(self, a2, b as int) by {
                        if is_d {
                            assert(!same_defn(self, a2, b as int));
                        }
                    }
                }
            }
            b = b + 1;
        }
        Ok(())
    }
}


/// Every top level scope has a rust root.
pub open spec fn top_roots_set(sc: &Schema) -> bool {
    forall|i: int| 0 <= i < sc.top_scopes.len() ==> sc.scopes@[(#[trigger] sc.top_scopes@[i]).1 as int].rust_root is Some
}

impl Schema {
    /// The checks `Schema::generate` makes before any code is produced: the
    /// definitions agree, and every top level scope has a rust root.  The code
    /// itself follows `plan_read` and `plan_write` of each scope.
    pub fn generate(&self, config: &crate::schema::GenerateConfig) -> (out: Result<(), SchemaError>)
        requires
            self.wf(),
            self.nodes.len() < usize::MAX,
        ensures
            match spec_check_definitions(self) {
                Err(e) => out == Err::<(), SchemaError>(e),
                Ok(_) => if top_roots_set(self) {
                    out is Ok
                } else {
                    out == Err::<(), SchemaError>(SchemaError::NoRustRoot)
                },
            },
    {
        match self.check_definitions() {
            Err(e) => {
                return Err(e);
            },
            Ok(_) => {},
        }
        let mut i: usize = 0;
        while i < self.top_scopes.len()
            invariant
                self.wf(),
                i <= self.top_scopes.len(),
                spec_check_definitions(self) is Ok,
                forall|k: int| 0 <= k < i ==> self.scopes@[(#[trigger] self.top_scopes@[k]).1 as int].rust_root is Some,
            decreases self.top_scopes.len() - i,
        {
            let s = self.top_scopes[i].1;
            if self.scopes[s].rust_root.is_none() {
                return Err(SchemaError::NoRustRoot);
            }
            i = i + 1;
        }
        Ok(())
    }
}


// ## Order of the type definitions
/// The type `a` defines is emitted before the one `b` defines: enums before
/// structs, and each kind in text order of the names.
pub open spec fn emitted_before(sc: &Schema, a: int, b: int) -> bool {
    ||| sc.nodes@[a].kind is Enum && sc.nodes@[b].kind is Obj
    ||| (sc.nodes@[a].kind is Enum && sc.nodes@[b].kind is Enum || sc.nodes@[a].kind is Obj
        && sc.nodes@[b].kind is Obj) && text_lt(text_bytes(sc.node_text@[a]), text_bytes(sc.node_text@[b]))
}

proof fn lemma_emitted_total(sc: &Schema, a: int, b: int)
    requires
        0 <= a < sc.nodes.len(),
        0 <= b < sc.nodes.len(),
        sc.node_text.len() == sc.nodes.len(),
        a != b,
        is_defn(sc, a) && is_first_defn(sc, a),
        is_defn(sc, b) && is_first_defn(sc, b),
    ensures
        emitted_before(sc, a, b) || emitted_before(sc, b, a),
{
    reveal(is_first_defn);
    crate::schema::lemma_text_lt_total(text_bytes(sc.node_text@[a]), text_bytes(sc.node_text@[b]));
    if text_bytes(sc.node_text@[a]) == text_bytes(sc.node_text@[b]) {
        crate::schema::lemma_text_bytes_injective(sc.node_text@[a], sc.node_text@[b]);
        if sc.nodes@[a].kind == sc.nodes@[b].kind {
            if a < b {
                assert(same_defn(sc, a, b));
            } else {
                assert(same_defn(sc, b, a));
            }
        }
    }
}

proof fn lemma_emitted_transitive(sc: &Schema, a: int, b: int, c: int)
    requires
        emitted_before(sc, a, b),
        emitted_before(sc, b, c),
    ensures
        emitted_before(sc, a, c),
{
    if text_lt(text_bytes(sc.node_text@[a]), text_bytes(sc.node_text@[b])) && text_lt(
        text_bytes(sc.node_text@[b]),
        text_bytes(sc.node_text@[c]),
    ) {
        crate::schema::lemma_text_lt_transitive(
            text_bytes(sc.node_text@[a]),
            text_bytes(sc.node_text@[b]),
            text_bytes(sc.node_text@[c]),
        );
    }
}

impl Schema {
    fn emitted_before_exec(&self, a: usize, b: usize) -> (out: bool)
        requires
            a < self.nodes.len(),
            b < self.nodes.len(),
            self.node_text.len() == self.nodes.len(),
        ensures
            out == emitted_before(self, a as int, b as int),
    {
        let ea = match self.nodes[a].kind {
            NodeKind::Enum => true,
            _ => false,
        };
        let oa = match self.nodes[a].kind {
            NodeKind::Obj => true,
            _ => false,
        };
        let eb = match self.nodes[b].kind {
            NodeKind::Enum => true,
            _ => false,
        };
        let ob = match self.nodes[b].kind {
            NodeKind::Obj => true,
            _ => false,
        };
        if ea && ob {
            return true;
        }
        if (ea && eb) || (oa && ob) {
            let ta = &self.node_text[a];
            let tb = &self.node_text[b];
            return crate::schema::bytes_lt(ta.as_str().as_bytes(), tb.as_str().as_bytes());
        }
        false
    }

    /// The enum and struct nodes whose type definitions the generated module
    /// holds, in the order it holds them: the first definition of each name,
    /// enums before structs, each kind in text order of the names.
    pub fn type_definitions(&self) -> (out: Vec<usize>)
        requires
            self.node_text.len() == self.nodes.len(),
        ensures
            forall|i: int|
                0 <= i < out.len() ==> #[trigger] out@[i] < self.nodes.len() && is_defn(self, out@[i] as int)
                    && is_first_defn(self, out@[i] as int),
            forall|d: int|
                0 <= d < self.nodes.len() && is_defn(self, d) && is_first_defn(self, d) ==> out@.contains(
                    d as usize,
                ),
            forall|i: int, j: int|
                0 <= i < j < out.len() ==> emitted_before(self, #[trigger] out@[i] as int, #[trigger] out@[j] as int),
    {
        let mut out: Vec<usize> = Vec::new();
        let mut d: usize = 0;
        while d < self.nodes.len()
            invariant
                d <= self.nodes.len(),
                self.node_text.len() == self.nodes.len(),
                forall|i: int|
                    0 <= i < out.len() ==> #[trigger] out@[i] < d && is_defn(self, out@[i] as int)
                        && is_first_defn(self, out@[i] as int),
                forall|e: int| 0 <= e < d && is_defn(self, e) && is_first_defn(self, e) ==> out@.contains(e as usize),
                forall|i: int, j: int|
                    0 <= i < j < out.len() ==> emitted_before(self, #[trigger] out@[i] as int, #[trigger] out@[j] as int),
            decreases self.nodes.len() - d,
        {
            let defn = match self.nodes[d].kind {
                NodeKind::Enum | NodeKind::Obj => true,
                _ => false,
            };
            if defn && self.is_first_defn_exec(d) {
                let mut k: usize = 0;
                while k < out.len()
                    invariant
                        k <= out.len(),
                        d < self.nodes.len(),
                        self.node_text.len() == self.nodes.len(),
                        forall|i: int| 0 <= i < out.len() ==> #[trigger] out@[i] < d,
                        forall|i: int| 0 <= i < k ==> emitted_before(self, #[trigger] out@[i] as int, d as int),
                    ensures
                        k <= out.len(),
                        forall|i: int| 0 <= i < k ==> emitted_before(self, #[trigger] out@[i] as int, d as int),
                        k < out.len() ==> !emitted_before(self, out@[k as int] as int, d as int),
                    decreases out.len() - k,
                {
                    if !self.emitted_before_exec(out[k], d) {
                        break;
                    }
                    k = k + 1;
                }
                let ghost old_out = out@;
                proof {
                    assert forall|j: int| k <= j < old_out.len() implies emitted_before(
                        self,
                        d as int,
                        #[trigger] old_out[j] as int,
                    ) by {
                        lemma_emitted_total(self, old_out[k as int] as int, d as int);
                        if j > k {
                            lemma_emitted_transitive(self, d as int, old_out[k as int] as int, old_out[j] as int);
                        }
                    }
                }
                out.insert(k, d);
                proof {
                    assert(out@ =~= old_out.insert(k as int, d));
                    assert forall|a: int, b: int| 0 <= a < b < out.len() implies emitted_before(
                        self,
                        #[trigger] out@[a] as int,
                        #[trigger] out@[b] as int,
                    ) by {
                        if a < k && b > k {
                            assert(out@[b] == old_out[b - 1]);
                        } else if a > k {
                            assert(out@[a] == old_out[a - 1]);
                            assert(out@[b] == old_out[b - 1]);
                        }
                    }
                    assert forall|e: int|
                        0 <= e < d + 1 && is_defn(self, e) && is_first_defn(self, e) implies out@.contains(
                        e as usize,
                    ) by {
                        if e == d {
                            assert(out@[k as int] == d);
                        } else {
                            assert(old_out.contains(e as usize));
                            let x = choose|x: int| 0 <= x < old_out.len() && old_out[x] == e as usize;
                            if x < k {
                                assert(out@[x] == e as usize);
                            } else {
                                assert(out@[x + 1] == e as usize);
                            }
                        }
                    }
                }
            } else {
                proof {
                    assert forall|e: int|
                        0 <= e < d + 1 && is_defn(self, e) && is_first_defn(self, e) implies out@.contains(
                        e as usize,
                    ) by {
                        if e == d {
                            assert(is_defn(self, d as int) ==> defn);
                        }
                    }
                }
            }
            d = d + 1;
        }
        out
    }
}


/// The decimal digits of `n`.
pub open spec fn decimal(n: nat) -> Seq<char>
    decreases n,
{
    if n < 10 {
        seq![digit_char(n)]
    } else {
        decimal(n / 10).push(digit_char(n % 10))
    }
}

/// The digit `d` (below 10) as a character.
pub open spec fn digit_char(d: nat) -> char {
    if d == 0 {
        '0'
    } else if d == 1 {
        '1'
    } else if d == 2 {
        '2'
    } else if d == 3 {
        '3'
    } else if d == 4 {
        '4'
    } else if d == 5 {
        '5'
    } else if d == 6 {
        '6'
    } else if d == 7 {
        '7'
    } else if d == 8 {
        '8'
    } else {
        '9'
    }
}

/// The Rust name of an integer type is its sign letter, `i` or `u`, followed by
/// its width in bits in decimal, for every width a Rust integer type has.
pub proof fn lemma_int_text_names_width(t: IntType)
    requires
        t.rust_bits == 8 || t.rust_bits == 16 || t.rust_bits == 32 || t.rust_bits == 64,
    ensures
        spec_int_text(t) == seq![if t.signed { 'i' } else { 'u' }] + decimal(t.rust_bits as nat),
{
    reveal_with_fuel(decimal, 3);
    reveal_strlit("i8");
    reveal_strlit("i16");
    reveal_strlit("i32");
    reveal_strlit("i64");
    reveal_strlit("u8");
    reveal_strlit("u16");
    reveal_strlit("u32");
    reveal_strlit("u64");
    let c = if t.signed { 'i' } else { 'u' };
    if t.rust_bits == 8 {
        assert(decimal(8) =~= seq!['8']);
        assert(spec_int_text(t) =~= seq![c] + decimal(8));
    } else if t.rust_bits == 16 {
        assert(decimal(1) =~= seq!['1']);
        assert(decimal(16) =~= seq!['1', '6']);
        assert(spec_int_text(t) =~= seq![c] + decimal(16));
    } else if t.rust_bits == 32 {
        assert(decimal(3) =~= seq!['3']);
        assert(decimal(32) =~= seq!['3', '2']);
        assert(spec_int_text(t) =~= seq![c] + decimal(32));
    } else {
        assert(decimal(6) =~= seq!['6']);
        assert(decimal(64) =~= seq!['6', '4']);
        assert(spec_int_text(t) =~= seq![c] + decimal(64));
    }
}

/// Different integer types have different names.
pub proof fn lemma_int_text_distinct(a: IntType, b: IntType)
    requires
        a.rust_bits == 8 || a.rust_bits == 16 || a.rust_bits == 32 || a.rust_bits == 64,
        b.rust_bits == 8 || b.rust_bits == 16 || b.rust_bits == 32 || b.rust_bits == 64,
        a != b,
    ensures
        spec_int_text(a) != spec_int_text(b),
{
    lemma_int_text_names_width(a);
    lemma_int_text_names_width(b);
    reveal_with_fuel(decimal, 3);
    let da = decimal(a.rust_bits as nat);
    let db = decimal(b.rust_bits as nat);
    if spec_int_text(a) == spec_int_text(b) {
        assert(spec_int_text(a)[0] == spec_int_text(b)[0]);
        assert(spec_int_text(a).drop_first() =~= da);
        assert(spec_int_text(b).drop_first() =~= db);
        assert(da == db);
        assert(decimal(1) =~= seq!['1']);
        assert(decimal(3) =~= seq!['3']);
        assert(decimal(6) =~= seq!['6']);
        assert(decimal(8) =~= seq!['8']);
        assert(decimal(16) =~= seq!['1', '6']);
        assert(decimal(32) =~= seq!['3', '2']);
        assert(decimal(64) =~= seq!['6', '4']);
    }
}

} // verus!
