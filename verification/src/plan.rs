//! What the generated code of a scope does, in which order: the dependencies of
//! each node for reading and for writing, and the walks over them.
use vstd::prelude::*;
use crate::error::SchemaError;
use crate::schema::{Link, NodeKind, Schema, pairs_ok};
use crate::traverse::{Step, graph_wf, is_traversal, prepared_first, traverse};

verus! {

/// The second items of the pairs of `list` whose first item is `a`, in order.
pub open spec fn seconds_of(list: Seq<(usize, usize)>, a: int) -> Seq<usize>
    decreases list.len(),
{
    if list.len() == 0 {
        Seq::empty()
    } else {
        let r = seconds_of(list.drop_last(), a);
        if list.last().0 == a {
            r.push(list.last().1)
        } else {
            r
        }
    }
}

/// The node an input really depends on.
pub open spec fn link_dep(l: Link) -> usize {
    match l.redirect {
        Some(r) => r,
        None => l.primary,
    }
}

/// What the inputs of `user` depend on, in order.
pub open spec fn link_deps(links: Seq<Link>, user: int) -> Seq<usize>
    decreases links.len(),
{
    if links.len() == 0 {
        Seq::empty()
    } else {
        let r = link_deps(links.drop_last(), user);
        if links.last().user == user {
            r.push(link_dep(links.last()))
        } else {
            r
        }
    }
}

pub open spec fn opt_seq(o: Option<usize>) -> Seq<usize> {
    match o {
        Some(x) => seq![x],
        None => Seq::empty(),
    }
}

/// What reading node `n` needs done first.
pub open spec fn spec_read_deps(sc: &Schema, n: int) -> Seq<usize> {
    let d = sc.nodes@[n];
    let seg = opt_seq(d.segment);
    let before = opt_seq(d.serial_before);
    let inputs = link_deps(sc.links@, n);
    match d.kind {
        NodeKind::Serial | NodeKind::EnumDummy => Seq::empty(),
        NodeKind::SerialSegment | NodeKind::FixedRange { .. } => seg + before,
        NodeKind::FixedBytes { .. } | NodeKind::Int { .. } | NodeKind::Const | NodeKind::Custom
        | NodeKind::ObjField { .. } => inputs,
        NodeKind::Align { .. } | NodeKind::DelimitedBytes | NodeKind::RemainingBytes => before + seg,
        NodeKind::DynamicBytes | NodeKind::DynamicArray { .. } => before + inputs + seg,
        NodeKind::Enum => before + inputs + seg + seconds_of(sc.external_deps@, n),
        NodeKind::Obj => seconds_of(sc.fields@, n),
    }
}

/// What writing node `n` needs done first.
pub open spec fn spec_write_deps(sc: &Schema, n: int) -> Seq<usize> {
    let d = sc.nodes@[n];
    match d.kind {
        NodeKind::Serial => seconds_of(sc.segments@, d.scope as int) + seconds_of(
            sc.lifted_serial_deps@,
            n,
        ),
        NodeKind::SerialSegment => opt_seq(d.serial_before) + opt_seq(d.rust),
        NodeKind::FixedRange { .. } => seconds_of(sc.range_rust@, n),
        NodeKind::Align { .. } => opt_seq(d.serial_before),
        NodeKind::Const | NodeKind::Obj => Seq::empty(),
        NodeKind::ObjField { obj } => seq![obj],
        _ => opt_seq(d.rust),
    }
}

/// The read dependencies of every node.
pub open spec fn read_graph(sc: &Schema) -> Seq<Seq<usize>> {
    Seq::new(sc.nodes.len() as nat, |i: int| spec_read_deps(sc, i))
}

/// The write dependencies of every node.
pub open spec fn write_graph(sc: &Schema) -> Seq<Seq<usize>> {
    Seq::new(sc.nodes.len() as nat, |i: int| spec_write_deps(sc, i))
}

/// Which nodes prepare before their dependencies are written: fixed ranges
/// (they set up their buffer).
pub open spec fn write_prep(sc: &Schema) -> Seq<bool> {
    Seq::new(sc.nodes.len() as nat, |i: int| sc.nodes@[i].kind is FixedRange)
}

/// Where reading a scope starts: its rust root, its extra rust roots, then
/// each of its serial elements (so that padding is read too).
pub open spec fn read_roots(sc: &Schema, s: int, root: usize) -> Seq<usize> {
    seq![root] + seconds_of(sc.rust_extra_roots@, s) + seconds_of(sc.sub_segments@, s)
}

/// Where writing a scope starts: its extra serial roots, then its serial root.
pub open spec fn write_roots(sc: &Schema, s: int) -> Seq<usize> {
    seconds_of(sc.serial_extra_roots@, s) + seq![sc.scopes@[s].serial_root]
}

pub proof fn lemma_seconds_bound(list: Seq<(usize, usize)>, a: int, n1: int, n2: int)
    requires
        pairs_ok(list, n1, n2),
    ensures
        forall|i: int| 0 <= i < seconds_of(list, a).len() ==> #[trigger] seconds_of(list, a)[i] < n2,
    decreases list.len(),
{
    if list.len() > 0 {
        let l = list.drop_last();
        assert(pairs_ok(l, n1, n2)) by {
            assert forall|i: int| 0 <= i < l.len() implies (#[trigger] l[i]).0 < n1 && l[i].1 < n2 by {
                assert(l[i] == list[i]);
            }
        }
        lemma_seconds_bound(l, a, n1, n2);
        assert(list.last() == list[list.len() - 1]);
        let r = seconds_of(l, a);
        assert forall|i: int| 0 <= i < seconds_of(list, a).len() implies #[trigger] seconds_of(list, a)[i] < n2 by {
            if i < r.len() {
                assert(seconds_of(list, a)[i] == r[i]);
            }
        }
    }
}

pub proof fn lemma_link_deps_bound(links: Seq<Link>, user: int, n: int)
    requires
        forall|i: int|
            0 <= i < links.len() ==> (#[trigger] links[i]).primary < n && match links[i].redirect {
                Some(r) => r < n,
                None => true,
            },
    ensures
        forall|i: int| 0 <= i < link_deps(links, user).len() ==> #[trigger] link_deps(links, user)[i] < n,
    decreases links.len(),
{
    if links.len() > 0 {
        let l = links.drop_last();
        assert forall|i: int| 0 <= i < l.len() implies (#[trigger] l[i]).primary < n && match l[i].redirect {
            Some(r) => r < n,
            None => true,
        } by {
            assert(l[i] == links[i]);
        }
        lemma_link_deps_bound(l, user, n);
        assert(links.last() == links[links.len() - 1]);
        let r = link_deps(l, user);
        assert forall|i: int| 0 <= i < link_deps(links, user).len() implies #[trigger] link_deps(links, user)[i] < n by {
            if i < r.len() {
                assert(link_deps(links, user)[i] == r[i]);
            }
        }
    }
}

/// Appends the second items of the pairs of `list` whose first item is `a`.
pub(crate) fn push_seconds(list: &Vec<(usize, usize)>, a: usize, out: &mut Vec<usize>)
    ensures
        final(out)@ == old(out)@ + seconds_of(list@, a as int),
{
    let mut i: usize = 0;
    let ghost start = out@;
    assert(list@.take(0) =~= Seq::<(usize, usize)>::empty());
    assert(start + Seq::<usize>::empty() =~= start);
    while i < list.len()
        invariant
            i <= list.len(),
            out@ == start + seconds_of(list@.take(i as int), a as int),
            start == old(out)@,
        decreases list.len() - i,
    {
        assert(list@.take(i + 1).drop_last() =~= list@.take(i as int));
        assert(list@.take(i + 1).last() == list@[i as int]);
        if list[i].0 == a {
            out.push(list[i].1);
            assert(out@ =~= start + seconds_of(list@.take(i + 1), a as int));
        }
        i = i + 1;
    }
    assert(list@.take(list.len() as int) =~= list@);
}

/// Appends what the inputs of `user` depend on.
fn push_link_deps(links: &Vec<Link>, user: usize, out: &mut Vec<usize>)
    ensures
        final(out)@ == old(out)@ + link_deps(links@, user as int),
{
    let mut i: usize = 0;
    let ghost start = out@;
    assert(links@.take(0) =~= Seq::<Link>::empty());
    assert(start + Seq::<usize>::empty() =~= start);
    while i < links.len()
        invariant
            i <= links.len(),
            out@ == start + link_deps(links@.take(i as int), user as int),
            start == old(out)@,
        decreases links.len() - i,
    {
        assert(links@.take(i + 1).drop_last() =~= links@.take(i as int));
        assert(links@.take(i + 1).last() == links@[i as int]);
        let l = links[i];
        if l.user == user {
            let d = match l.redirect {
                Some(r) => r,
                None => l.primary,
            };
            out.push(d);
            assert(out@ =~= start + link_deps(links@.take(i + 1), user as int));
        }
        i = i + 1;
    }
    assert(links@.take(links.len() as int) =~= links@);
}

fn push_opt(o: Option<usize>, out: &mut Vec<usize>)
    ensures
        final(out)@ == old(out)@ + opt_seq(o),
{
    match o {
        Some(x) => {
            out.push(x);
            assert(out@ =~= old(out)@ + opt_seq(o));
        },
        None => {
            assert(out@ =~= old(out)@ + opt_seq(o));
        },
    }
}

impl Schema {
    /// What reading node `n` needs done first (`gather_read_deps` of each kind).
    pub fn gather_read_deps(&self, n: usize) -> (out: Vec<usize>)
        requires
            self.wf(),
            n < self.nodes.len(),
        ensures
            out@ == spec_read_deps(self, n as int),
    {
        let d = self.nodes[n];
        let mut out: Vec<usize> = Vec::new();
        match d.kind {
            NodeKind::Serial | NodeKind::EnumDummy => {},
            NodeKind::SerialSegment | NodeKind::FixedRange { .. } => {
                push_opt(d.segment, &mut out);
                push_opt(d.serial_before, &mut out);
            },
            NodeKind::FixedBytes { .. } | NodeKind::Int { .. } | NodeKind::Const | NodeKind::Custom
            | NodeKind::ObjField { .. } => {
                push_link_deps(&self.links, n, &mut out);
            },
            NodeKind::Align { .. } | NodeKind::DelimitedBytes | NodeKind::RemainingBytes => {
                push_opt(d.serial_before, &mut out);
                push_opt(d.segment, &mut out);
            },
            NodeKind::DynamicBytes | NodeKind::DynamicArray { .. } => {
                push_opt(d.serial_before, &mut out);
                push_link_deps(&self.links, n, &mut out);
                push_opt(d.segment, &mut out);
            },
            NodeKind::Enum => {
                push_opt(d.serial_before, &mut out);
                push_link_deps(&self.links, n, &mut out);
                push_opt(d.segment, &mut out);
                push_seconds(&self.external_deps, n, &mut out);
            },
            NodeKind::Obj => {
                push_seconds(&self.fields, n, &mut out);
            },
        }
        assert(out@ =~= spec_read_deps(self, n as int));
        out
    }

    /// What writing node `n` needs done first (`gather_write_deps` of each kind).
    pub fn gather_write_deps(&self, n: usize) -> (out: Vec<usize>)
        requires
            self.wf(),
            n < self.nodes.len(),
        ensures
            out@ == spec_write_deps(self, n as int),
    {
        let d = self.nodes[n];
        let mut out: Vec<usize> = Vec::new();
        match d.kind {
            NodeKind::Serial => {
                push_seconds(&self.segments, d.scope, &mut out);
                push_seconds(&self.lifted_serial_deps, n, &mut out);
            },
            NodeKind::SerialSegment => {
                push_opt(d.serial_before, &mut out);
                push_opt(d.rust, &mut out);
            },
            NodeKind::FixedRange { .. } => {
                push_seconds(&self.range_rust, n, &mut out);
            },
            NodeKind::Align { .. } => {
                push_opt(d.serial_before, &mut out);
            },
            NodeKind::Const | NodeKind::Obj => {},
            NodeKind::ObjField { obj } => {
                out.push(obj);
            },
            _ => {
                push_opt(d.rust, &mut out);
            },
        }
        assert(out@ =~= spec_write_deps(self, n as int));
        out
    }

    proof fn lemma_read_deps_bound(&self, n: int)
        requires
            self.wf(),
            0 <= n < self.nodes.len(),
        ensures
            forall|i: int|
                0 <= i < spec_read_deps(self, n).len() ==> #[trigger] spec_read_deps(self, n)[i]
                    < self.nodes.len(),
    {
        let nn = self.nodes.len() as int;
        let d = self.nodes@[n];
        assert(crate::schema::node_ok(d, nn, self.scopes.len() as int));
        lemma_link_deps_bound(self.links@, n, nn);
        lemma_seconds_bound(self.external_deps@, n, nn, nn);
        lemma_seconds_bound(self.fields@, n, nn, nn);
    }

    proof fn lemma_write_deps_bound(&self, n: int)
        requires
            self.wf(),
            0 <= n < self.nodes.len(),
        ensures
            forall|i: int|
                0 <= i < spec_write_deps(self, n).len() ==> #[trigger] spec_write_deps(self, n)[i]
                    < self.nodes.len(),
    {
        let nn = self.nodes.len() as int;
        let d = self.nodes@[n];
        assert(crate::schema::node_ok(d, nn, self.scopes.len() as int));
        lemma_seconds_bound(self.segments@, d.scope as int, self.scopes.len() as int, nn);
        lemma_seconds_bound(self.lifted_serial_deps@, n, nn, nn);
        lemma_seconds_bound(self.range_rust@, n, nn, nn);
    }

    /// The read dependencies of every node.
    pub fn read_deps_all(&self) -> (out: Vec<Vec<usize>>)
        requires
            self.wf(),
        ensures
            out@.map_values(|v: Vec<usize>| v@) == read_graph(self),
            out.len() == self.nodes.len(),
            graph_wf(read_graph(self)),
    {
        let mut out: Vec<Vec<usize>> = Vec::new();
        let mut i: usize = 0;
        while i < self.nodes.len()
            invariant
                self.wf(),
                i <= self.nodes.len(),
                out.len() == i,
                forall|k: int| 0 <= k < i ==> (#[trigger] out@[k])@ == spec_read_deps(self, k),
            decreases self.nodes.len() - i,
        {
            out.push(self.gather_read_deps(i));
            i = i + 1;
        }
        assert(out@.map_values(|v: Vec<usize>| v@) =~= read_graph(self));
        proof {
            let g = read_graph(self);
            assert forall|x: int, k: int| 0 <= x < g.len() && 0 <= k < g[x].len() implies #[trigger] g[x][k]
                < g.len() by {
                self.lemma_read_deps_bound(x);
            }
        }
        out
    }

    /// The write dependencies of every node.
    pub fn write_deps_all(&self) -> (out: Vec<Vec<usize>>)
        requires
            self.wf(),
        ensures
            out@.map_values(|v: Vec<usize>| v@) == write_graph(self),
            out.len() == self.nodes.len(),
            graph_wf(write_graph(self)),
    {
        let mut out: Vec<Vec<usize>> = Vec::new();
        let mut i: usize = 0;
        while i < self.nodes.len()
            invariant
                self.wf(),
                i <= self.nodes.len(),
                out.len() == i,
                forall|k: int| 0 <= k < i ==> (#[trigger] out@[k])@ == spec_write_deps(self, k),
            decreases self.nodes.len() - i,
        {
            out.push(self.gather_write_deps(i));
            i = i + 1;
        }
        assert(out@.map_values(|v: Vec<usize>| v@) =~= write_graph(self));
        proof {
            let g = write_graph(self);
            assert forall|x: int, k: int| 0 <= x < g.len() && 0 <= k < g[x].len() implies #[trigger] g[x][k]
                < g.len() by {
                self.lemma_write_deps_bound(x);
            }
        }
        out
    }

    /// The order of the generated read code of scope `s` (`generate_read`): a
    /// walk of the read dependencies from the scope's rust root, its extra rust
    /// roots and its serial elements.  Fails when the scope has no rust root.
    pub fn plan_read(&self, s: usize) -> (out: Result<Vec<Step>, SchemaError>)
        requires
            self.wf(),
            s < self.scopes.len(),
        ensures
            match self.scopes@[s as int].rust_root {
                None => out == Err::<Vec<Step>, SchemaError>(SchemaError::NoRustRoot),
                Some(r) => out is Ok && is_traversal(
                    read_graph(self),
                    read_roots(self, s as int, r),
                    Seq::new(self.nodes.len() as nat, |i: int| false),
                    out->Ok_0@,
                ),
            },
    {
        let root = match self.scopes[s].rust_root {
            None => {
                return Err(SchemaError::NoRustRoot);
            },
            Some(r) => r,
        };
        let mut roots: Vec<usize> = Vec::new();
        roots.push(root);
        push_seconds(&self.rust_extra_roots, s, &mut roots);
        push_seconds(&self.sub_segments, s, &mut roots);
        let deps = self.read_deps_all();
        let mut pre: Vec<bool> = Vec::new();
        while pre.len() < self.nodes.len()
            invariant
                pre.len() <= self.nodes.len(),
                forall|k: int| 0 <= k < pre.len() ==> !#[trigger] pre@[k],
            decreases self.nodes.len() - pre.len(),
        {
            pre.push(false);
        }
        proof {
            let nn = self.nodes.len() as int;
            crate::schema::lemma_last_of_bound(self.segments@, 0, nn);
            lemma_seconds_bound(self.rust_extra_roots@, s as int, self.scopes.len() as int, nn);
            lemma_seconds_bound(self.sub_segments@, s as int, self.scopes.len() as int, nn);
            assert(roots@ =~= read_roots(self, s as int, root));
            assert forall|i: int| 0 <= i < roots.len() implies #[trigger] roots@[i] < deps.len() by {
                if i >= 1 && i < 1 + seconds_of(self.rust_extra_roots@, s as int).len() {
                    assert(roots@[i] == seconds_of(self.rust_extra_roots@, s as int)[i - 1]);
                } else if i >= 1 {
                    let k = i - 1 - seconds_of(self.rust_extra_roots@, s as int).len();
                    assert(roots@[i] == seconds_of(self.sub_segments@, s as int)[k]);
                }
            }
            assert(pre@ =~= Seq::new(self.nodes.len() as nat, |i: int| false));
        }
        Ok(traverse(&deps, &roots, &pre))
    }

    /// The order of the generated write code of scope `s` (`generate_write`): a
    /// walk of the write dependencies from the scope's extra serial roots and
    /// its serial root, with fixed ranges preparing their buffers first: a
    /// range's buffer is set up before the main step of every node the walk can
    /// only reach through the range (its fillers).  Fails when the scope has no
    /// rust root.
    pub fn plan_write(&self, s: usize) -> (out: Result<Vec<Step>, SchemaError>)
        requires
            self.wf(),
            s < self.scopes.len(),
        ensures
            self.scopes@[s as int].rust_root is None ==> out == Err::<Vec<Step>, SchemaError>(
                SchemaError::NoRustRoot,
            ),
            self.scopes@[s as int].rust_root is Some ==> out is Ok && is_traversal(
                write_graph(self),
                write_roots(self, s as int),
                write_prep(self),
                out->Ok_0@,
            ) && prepared_first(write_graph(self), write_roots(self, s as int), out->Ok_0@),
    {
        if self.scopes[s].rust_root.is_none() {
            return Err(SchemaError::NoRustRoot);
        }
        let mut roots: Vec<usize> = Vec::new();
        push_seconds(&self.serial_extra_roots, s, &mut roots);
        roots.push(self.scopes[s].serial_root);
        let deps = self.write_deps_all();
        let mut pre: Vec<bool> = Vec::new();
        while pre.len() < self.nodes.len()
            invariant
                self.wf(),
                pre.len() <= self.nodes.len(),
                forall|k: int| 0 <= k < pre.len() ==> #[trigger] pre@[k] == (self.nodes@[k].kind is FixedRange),
            decreases self.nodes.len() - pre.len(),
        {
            let k = pre.len();
            let is_range = match self.nodes[k].kind {
                NodeKind::FixedRange { .. } => true,
                _ => false,
            };
            pre.push(is_range);
        }
        proof {
            let nn = self.nodes.len() as int;
            lemma_seconds_bound(self.serial_extra_roots@, s as int, self.scopes.len() as int, nn);
            assert(roots@ =~= write_roots(self, s as int));
            assert forall|i: int| 0 <= i < roots.len() implies #[trigger] roots@[i] < deps.len() by {
                if i < seconds_of(self.serial_extra_roots@, s as int).len() {
                    assert(roots@[i] == seconds_of(self.serial_extra_roots@, s as int)[i]);
                }
            }
            assert(pre@ =~= write_prep(self));
        }
        Ok(traverse(&deps, &roots, &pre))
    }
}


/// The nodes named by the ids of scope `s` among the first `k` ids, in order,
/// leaving out `skip`: the variables the generated code of the scope declares.
pub open spec fn declared(level_ids: Seq<(usize, String, Option<usize>)>, s: int, skip: Option<usize>, k: int) -> Seq<usize>
    decreases k,
{
    if k <= 0 {
        Seq::empty()
    } else {
        let r = declared(level_ids, s, skip, k - 1);
        let e = level_ids[k - 1];
        match e.2 {
            Some(n) => if e.0 == s && Some(n) != skip {
                r.push(n)
            } else {
                r
            },
            None => r,
        }
    }
}

impl Schema {
    /// The nodes whose variables the generated code of scope `s` declares: those
    /// its ids name, except the rust root when writing (it is the argument).
    pub fn declared_nodes(&self, s: usize, for_write: bool) -> (out: Vec<usize>)
        requires
            s < self.scopes.len(),
        ensures
            out@ == declared(
                self.level_ids@,
                s as int,
                if for_write {
                    self.scopes@[s as int].rust_root
                } else {
                    None
                },
                self.level_ids.len() as int,
            ),
    {
        let skip = if for_write {
            self.scopes[s].rust_root
        } else {
            None
        };
        let mut out: Vec<usize> = Vec::new();
        let mut i: usize = 0;
        while i < self.level_ids.len()
            invariant
                i <= self.level_ids.len(),
                out@ == declared(self.level_ids@, s as int, skip, i as int),
            decreases self.level_ids.len() - i,
        {
            match self.level_ids[i].2 {
                Some(n) => {
                    if self.level_ids[i].0 == s && Some(n) != skip {
                        out.push(n);
                    }
                },
                None => {},
            }
            i = i + 1;
        }
        out
    }
}

/// The serial segments of a scope are read and written in order: in any walk of
/// the read or write dependencies, a segment's main step comes after that of
/// the segment before it, unless that one depends back on it.
pub proof fn lemma_segments_in_order(
    sc: &Schema,
    for_write: bool,
    roots: Seq<usize>,
    pre: Seq<bool>,
    out: Seq<Step>,
    i: int,
)
    requires
        sc.wf(),
        is_traversal(if for_write { write_graph(sc) } else { read_graph(sc) }, roots, pre, out),
        0 <= i < out.len(),
        out[i].1,
        sc.nodes@[out[i].0 as int].kind is SerialSegment,
        sc.nodes@[out[i].0 as int].serial_before is Some,
    ensures
        ({
            let g = if for_write { write_graph(sc) } else { read_graph(sc) };
            let p = sc.nodes@[out[i].0 as int].serial_before->Some_0;
            crate::traverse::has_step_before(out, p as int, true, i) || crate::traverse::reaches(g, p as int, out[i].0 as int)
        }),
{
    let g = if for_write { write_graph(sc) } else { read_graph(sc) };
    let n = out[i].0 as int;
    let d = sc.nodes@[n];
    let p = d.serial_before->Some_0;
    let t = if for_write { 0int } else { opt_seq(d.segment).len() as int };
    assert(g[n] == (if for_write { spec_write_deps(sc, n) } else { spec_read_deps(sc, n) }));
    assert(g[n][t] == p);
}


/// A fixed range's buffer is set up before its fillers write into it: in a
/// write plan, when a filler `f` of range `r` can only be reached from the
/// scope's write roots through `r`, the preparation step of `r` comes before
/// the main step of `f`.
pub proof fn lemma_range_buffer_first(sc: &Schema, s: int, out: Seq<Step>, p: int, q: int)
    requires
        prepared_first(write_graph(sc), write_roots(sc, s), out),
        0 <= p < out.len(),
        0 <= q < out.len(),
        out[p] == (out[p].0, false),
        out[q] == (out[q].0, true),
        !crate::traverse::reachable(
            crate::traverse::without_deps(write_graph(sc), out[p].0 as int),
            crate::traverse::node_set(write_roots(sc, s)),
            out[q].0 as int,
        ),
    ensures
        p < q,
{
    crate::traverse::lemma_prepared_before_reached(write_graph(sc), write_roots(sc, s), out, p, q);
}


/// The serial elements of a scope: the nodes laid out one after another in its
/// serial data.
pub open spec fn is_serial_element(k: NodeKind) -> bool {
    match k {
        NodeKind::SerialSegment | NodeKind::FixedRange { .. } | NodeKind::Align { .. }
        | NodeKind::DelimitedBytes | NodeKind::RemainingBytes | NodeKind::DynamicBytes
        | NodeKind::DynamicArray { .. } | NodeKind::Enum => true,
        _ => false,
    }
}

/// Reading a serial element needs the element before it read first.
pub proof fn lemma_serial_before_read_dep(sc: &Schema, n: int)
    requires
        0 <= n < sc.nodes.len(),
        is_serial_element(sc.nodes@[n].kind),
        sc.nodes@[n].serial_before is Some,
    ensures
        read_graph(sc)[n].contains(sc.nodes@[n].serial_before->Some_0),
{
    let d = sc.nodes@[n];
    let p = d.serial_before->Some_0;
    let g = read_graph(sc);
    assert(g[n] == spec_read_deps(sc, n));
    let seg = opt_seq(d.segment);
    let before = opt_seq(d.serial_before);
    let inputs = link_deps(sc.links@, n);
    assert(before[0] == p);
    match d.kind {
        NodeKind::SerialSegment | NodeKind::FixedRange { .. } => {
            assert((seg + before)[seg.len() as int] == p);
        },
        NodeKind::Align { .. } | NodeKind::DelimitedBytes | NodeKind::RemainingBytes => {
            assert((before + seg)[0] == p);
        },
        NodeKind::DynamicBytes | NodeKind::DynamicArray { .. } => {
            assert((before + inputs + seg)[0] == p);
        },
        NodeKind::Enum => {
            assert((before + inputs + seg + seconds_of(sc.external_deps@, n))[0] == p);
        },
        _ => {},
    }
}

/// A read plan reads the serial elements of a scope in order: every serial
/// element's main step comes after that of the element before it (when no
/// dependency leads back to the element).
pub proof fn lemma_read_in_serial_order(sc: &Schema, roots: Seq<usize>, pre: Seq<bool>, out: Seq<Step>, i: int)
    requires
        is_traversal(read_graph(sc), roots, pre, out),
        crate::traverse::acyclic(read_graph(sc)),
        0 <= i < out.len(),
        out[i].1,
        is_serial_element(sc.nodes@[out[i].0 as int].kind),
        sc.nodes@[out[i].0 as int].serial_before is Some,
    ensures
        crate::traverse::has_step_before(out, sc.nodes@[out[i].0 as int].serial_before->Some_0 as int, true, i),
{
    let g = read_graph(sc);
    let n = out[i].0 as int;
    assert(n < g.len());
    lemma_serial_before_read_dep(sc, n);
    let p = sc.nodes@[n].serial_before->Some_0;
    let t = choose|t: int| 0 <= t < g[n].len() && g[n][t] == p;
    assert(g[out[i].0 as int][t] == p);
}

proof fn lemma_seconds_contains(list: Seq<(usize, usize)>, k: int)
    requires
        0 <= k < list.len(),
    ensures
        seconds_of(list, list[k].0 as int).contains(list[k].1),
    decreases list.len(),
{
    let a = list[k].0 as int;
    if k == list.len() - 1 {
        assert(seconds_of(list, a).last() == list[k].1);
    } else {
        lemma_seconds_contains(list.drop_last(), k);
        let r = seconds_of(list.drop_last(), a);
        let j = choose|j: int| 0 <= j < r.len() && r[j] == list[k].1;
        assert(seconds_of(list, a)[j] == list[k].1);
    }
}

/// Writing a fixed range needs every node that fills it written first: each
/// user of the range on its rust side is one of its write dependencies.
pub proof fn lemma_range_users_are_write_deps(sc: &Schema, k: int)
    requires
        0 <= k < sc.range_rust.len(),
        0 <= sc.range_rust@[k].0 < sc.nodes.len(),
        sc.nodes@[sc.range_rust@[k].0 as int].kind is FixedRange,
    ensures
        write_graph(sc)[sc.range_rust@[k].0 as int].contains(sc.range_rust@[k].1),
{
    lemma_seconds_contains(sc.range_rust@, k);
}

/// A write plan writes every filler of a range it reaches before the range
/// itself.
pub proof fn lemma_fillers_written_before_range(
    sc: &Schema,
    roots: Seq<usize>,
    pre: Seq<bool>,
    out: Seq<Step>,
    i: int,
    k: int,
)
    requires
        is_traversal(write_graph(sc), roots, pre, out),
        crate::traverse::acyclic(write_graph(sc)),
        0 <= i < out.len(),
        out[i].1,
        sc.nodes@[out[i].0 as int].kind is FixedRange,
        0 <= k < sc.range_rust.len(),
        sc.range_rust@[k].0 == out[i].0,
    ensures
        crate::traverse::has_step_before(out, sc.range_rust@[k].1 as int, true, i),
{
    let g = write_graph(sc);
    let r = out[i].0 as int;
    assert(r < g.len());
    lemma_range_users_are_write_deps(sc, k);
    let t = choose|t: int| 0 <= t < g[r].len() && g[r][t] == sc.range_rust@[k].1;
    assert(g[out[i].0 as int][t] == sc.range_rust@[k].1);
}


proof fn lemma_link_deps_contains(links: Seq<Link>, user: int, k: int)
    requires
        0 <= k < links.len(),
        links[k].user == user,
    ensures
        link_deps(links, user).contains(link_dep(links[k])),
    decreases links.len(),
{
    if k == links.len() - 1 {
        assert(link_deps(links, user).last() == link_dep(links[k]));
    } else {
        lemma_link_deps_contains(links.drop_last(), user, k);
        let r = link_deps(links.drop_last(), user);
        let j = choose|j: int| 0 <= j < r.len() && r[j] == link_dep(links[k]);
        assert(link_deps(links, user)[j] == link_dep(links[k]));
    }
}

/// Reading a node needs what feeds it read first: for every node that takes
/// inputs, what each input depends on; for every serial element, the segment
/// it belongs to; for a struct, each of its fields.
pub proof fn lemma_read_deps_complete(sc: &Schema, n: int)
    requires
        0 <= n < sc.nodes.len(),
    ensures
        forall|k: int|
            0 <= k < sc.links.len() && (#[trigger] sc.links@[k]).user == n && (sc.nodes@[n].kind is FixedBytes
                || sc.nodes@[n].kind is Int || sc.nodes@[n].kind is Const || sc.nodes@[n].kind is Custom
                || sc.nodes@[n].kind is ObjField || sc.nodes@[n].kind is DynamicBytes
                || sc.nodes@[n].kind is DynamicArray || sc.nodes@[n].kind is Enum) ==> read_graph(sc)[n].contains(
                link_dep(sc.links@[k]),
            ),
        is_serial_element(sc.nodes@[n].kind) && sc.nodes@[n].segment is Some ==> read_graph(sc)[n].contains(
            sc.nodes@[n].segment->Some_0,
        ),
        sc.nodes@[n].kind is Obj ==> forall|k: int|
            0 <= k < sc.fields.len() && (#[trigger] sc.fields@[k]).0 == n ==> read_graph(sc)[n].contains(
                sc.fields@[k].1,
            ),
{
    let d = sc.nodes@[n];
    let g = read_graph(sc);
    assert(g[n] == spec_read_deps(sc, n));
    let seg = opt_seq(d.segment);
    let before = opt_seq(d.serial_before);
    let inputs = link_deps(sc.links@, n);
    assert forall|k: int|
        0 <= k < sc.links.len() && (#[trigger] sc.links@[k]).user == n && (d.kind is FixedBytes || d.kind is Int
            || d.kind is Const || d.kind is Custom || d.kind is ObjField || d.kind is DynamicBytes
            || d.kind is DynamicArray || d.kind is Enum) implies g[n].contains(link_dep(sc.links@[k])) by {
        lemma_link_deps_contains(sc.links@, n, k);
        let x = link_dep(sc.links@[k]);
        let j = choose|j: int| 0 <= j < inputs.len() && inputs[j] == x;
        match d.kind {
            NodeKind::DynamicBytes | NodeKind::DynamicArray { .. } => {
                assert((before + inputs + seg)[before.len() + j] == x);
            },
            NodeKind::Enum => {
                assert((before + inputs + seg + seconds_of(sc.external_deps@, n))[before.len() + j] == x);
            },
            _ => {
                assert(inputs[j] == x);
            },
        }
    }
    if is_serial_element(d.kind) && d.segment is Some {
        let x = d.segment->Some_0;
        assert(seg[0] == x);
        match d.kind {
            NodeKind::SerialSegment | NodeKind::FixedRange { .. } => {
                assert((seg + before)[0] == x);
            },
            NodeKind::Align { .. } | NodeKind::DelimitedBytes | NodeKind::RemainingBytes => {
                assert((before + seg)[before.len() as int] == x);
            },
            NodeKind::DynamicBytes | NodeKind::DynamicArray { .. } => {
                assert((before + inputs + seg)[(before.len() + inputs.len()) as int] == x);
            },
            NodeKind::Enum => {
                assert((before + inputs + seg + seconds_of(sc.external_deps@, n))[(before.len() + inputs.len()) as int] == x);
            },
            _ => {},
        }
    }
    if d.kind is Obj {
        assert forall|k: int| 0 <= k < sc.fields.len() && (#[trigger] sc.fields@[k]).0 == n implies g[n].contains(
            sc.fields@[k].1,
        ) by {
            lemma_seconds_contains(sc.fields@, k);
        }
    }
}

/// Writing a node needs what consumes its value written first (the node its
/// rust side is connected to), a struct field needs its struct, a scope's
/// serial root needs each of the scope's segments, and a serial segment or an
/// alignment needs the element before it.
pub proof fn lemma_write_deps_complete(sc: &Schema, n: int)
    requires
        0 <= n < sc.nodes.len(),
    ensures
        sc.nodes@[n].rust is Some && !(sc.nodes@[n].kind is Serial || sc.nodes@[n].kind is FixedRange
            || sc.nodes@[n].kind is Align || sc.nodes@[n].kind is Const || sc.nodes@[n].kind is Obj
            || sc.nodes@[n].kind is ObjField) ==> write_graph(sc)[n].contains(sc.nodes@[n].rust->Some_0),
        (sc.nodes@[n].kind is SerialSegment || sc.nodes@[n].kind is Align) && sc.nodes@[n].serial_before is Some
            ==> write_graph(sc)[n].contains(sc.nodes@[n].serial_before->Some_0),
        sc.nodes@[n].kind matches NodeKind::ObjField { obj } ==> write_graph(sc)[n].contains(obj),
        sc.nodes@[n].kind is Serial ==> forall|k: int|
            0 <= k < sc.segments.len() && (#[trigger] sc.segments@[k]).0 == sc.nodes@[n].scope ==> write_graph(
                sc,
            )[n].contains(sc.segments@[k].1),
{
    let d = sc.nodes@[n];
    let g = write_graph(sc);
    assert(g[n] == spec_write_deps(sc, n));
    if d.kind is SerialSegment {
        if d.serial_before is Some {
            assert((opt_seq(d.serial_before) + opt_seq(d.rust))[0] == d.serial_before->Some_0);
        }
        if d.rust is Some {
            assert((opt_seq(d.serial_before) + opt_seq(d.rust))[opt_seq(d.serial_before).len() as int] == d.rust->Some_0);
        }
    } else if d.rust is Some {
        assert(opt_seq(d.rust)[0] == d.rust->Some_0);
    }
    if d.kind is Align && d.serial_before is Some {
        assert(opt_seq(d.serial_before)[0] == d.serial_before->Some_0);
    }
    match d.kind {
        NodeKind::ObjField { obj } => {
            assert(seq![obj][0] == obj);
        },
        _ => {},
    }
    if d.kind is Serial {
        assert forall|k: int| 0 <= k < sc.segments.len() && (#[trigger] sc.segments@[k]).0 == d.scope implies g[n].contains(
            sc.segments@[k].1,
        ) by {
            lemma_seconds_contains(sc.segments@, k);
            let r = seconds_of(sc.segments@, d.scope as int);
            let j = choose|j: int| 0 <= j < r.len() && r[j] == sc.segments@[k].1;
            assert((r + seconds_of(sc.lifted_serial_deps@, n))[j] == sc.segments@[k].1);
        }
    }
}

} // verus!
