//! The graph emitter: renders dependency records as a graph description.
//!
//! Every distinct escaped name gets one node declaration the first time it
//! is met, with an identifier formed from a counter that starts at two.
//! Names that appear as a target anywhere are internal nodes; names that
//! only ever appear as a prerequisite are leaves and get filled styling.
//! One edge line connects a target to each of its prerequisites.

use vstd::prelude::*;
use vstd::string::{StrSliceExecFns, StringExecFns};

use crate::parser::Record;
use crate::text::{dec_digits, dec_string, escape, escape_spec, str_eq};

verus! {

/// The view of one record: the raw target name and the raw prerequisites.
pub type RecV = (Seq<char>, Seq<Seq<char>>);

/// The registry: each entry is an escaped name with its styling, in the
/// order the names were first met; the position is the node's number.
pub type RegV = Seq<(Seq<char>, bool)>;

/// Some registry entry carries the name `n`.
pub open spec fn reg_contains(reg: RegV, n: Seq<char>) -> bool {
    exists|k: int| 0 <= k < reg.len() && reg[k].0 == n
}

/// Position of the first registry entry carrying `n`; negative when absent.
pub open spec fn reg_index(reg: RegV, n: Seq<char>) -> int
    decreases reg.len(),
{
    if reg.len() == 0 {
        -1
    } else if reg[0].0 == n {
        0
    } else if reg_index(reg.drop_first(), n) == -1 {
        -1
    } else {
        1 + reg_index(reg.drop_first(), n)
    }
}

/// A negative index means the name is absent; otherwise the index is the
/// least position carrying the name.
pub proof fn lemma_reg_index(reg: RegV, n: Seq<char>)
    ensures
        reg_index(reg, n) == -1 ==> !reg_contains(reg, n),
        reg_index(reg, n) != -1 ==> 0 <= reg_index(reg, n) < reg.len() && reg[reg_index(reg, n)].0
            == n && (forall|k: int| 0 <= k < reg_index(reg, n) ==> reg[k].0 != n),
    decreases reg.len(),
{
    if reg.len() == 0 {
    } else if reg[0].0 == n {
    } else {
        lemma_reg_index(reg.drop_first(), n);
        assert(forall|k: int| 1 <= k < reg.len() ==> reg.drop_first()[k - 1] == reg[k]);
    }
}

/// How the first position of a name moves when an entry is pushed: an
/// already-present name keeps its position; the pushed entry's own name gets
/// the old length; any other name stays absent.
pub proof fn lemma_reg_index_push(reg: RegV, e: (Seq<char>, bool), n: Seq<char>)
    ensures
        reg_contains(reg, n) ==> reg_index(reg.push(e), n) == reg_index(reg, n),
        !reg_contains(reg, n) && e.0 == n ==> reg_index(reg.push(e), n) == reg.len(),
        !reg_contains(reg, n) && e.0 != n ==> reg_index(reg.push(e), n) == -1,
    decreases reg.len(),
{
    lemma_reg_index(reg, n);
    if reg.len() == 0 {
        assert(reg.push(e)[0] == e);
        assert(reg.push(e).drop_first() =~= Seq::<(Seq<char>, bool)>::empty());
        assert(reg_index(Seq::<(Seq<char>, bool)>::empty(), n) == -1);
    } else {
        assert(reg.push(e)[0] == reg[0]);
        if reg[0].0 == n {
        } else {
            assert(reg.push(e).drop_first() =~= reg.drop_first().push(e));
            lemma_reg_index_push(reg.drop_first(), e, n);
            assert(forall|k: int| 1 <= k < reg.len() ==> reg.drop_first()[k - 1] == reg[k]);
            if reg_contains(reg, n) {
                let w = choose|k: int| 0 <= k < reg.len() && reg[k].0 == n;
                assert(reg.drop_first()[w - 1].0 == n);
                assert(reg_contains(reg.drop_first(), n));
                lemma_reg_index(reg.drop_first(), n);
            }
        }
    }
}

/// The set of escaped target names: a name in it is internal, any other
/// name is a leaf.
pub open spec fn parents_of(recs: Seq<RecV>) -> Set<Seq<char>> {
    Set::new(|n: Seq<char>| exists|i: int| 0 <= i < recs.len() && n == escape_spec(recs[i].0))
}

/// The identifier of the node at registry position `k`: the letter `n`
/// followed by the counter value, which starts at two.
pub open spec fn node_id(k: int) -> Seq<char> {
    "n"@ + dec_digits((k + 2) as nat)
}

/// The node-declaration line for a name first met at registry position `k`.
pub open spec fn node_line(k: int, name: Seq<char>, filled: bool) -> Seq<char> {
    if filled {
        node_id(k) + "[label=\""@ + name + "\", style = \"solid,filled\"]"@ + "\n"@
    } else {
        node_id(k) + "[label=\""@ + name + "\"]"@ + "\n"@
    }
}

/// The edge line from the node at position `t` to the node at position `d`.
pub open spec fn edge_line(t: int, d: int) -> Seq<char> {
    node_id(t) + " -> "@ + node_id(d) + "\n"@
}

/// Registering a name: an unseen name is appended with its styling and gets
/// its node-declaration line; a seen name changes nothing.
pub open spec fn spec_register(reg: RegV, name: Seq<char>, filled: bool) -> (RegV, Seq<char>) {
    if reg_contains(reg, name) {
        (reg, Seq::empty())
    } else {
        (reg.push((name, filled)), node_line(reg.len() as int, name, filled))
    }
}

/// One prerequisite of a record: register its escaped name (filled unless
/// it is a target somewhere), then emit the edge from the target's node.
pub open spec fn emit_dep(reg: RegV, parents: Set<Seq<char>>, te: Seq<char>, dep: Seq<char>) -> (
    RegV,
    Seq<char>,
) {
    let de = escape_spec(dep);
    let (r1, x1) = spec_register(reg, de, !parents.contains(de));
    (r1, x1 + edge_line(reg_index(r1, te), reg_index(r1, de)))
}

/// The prerequisites of one record, in order.
pub open spec fn emit_deps(
    reg: RegV,
    parents: Set<Seq<char>>,
    te: Seq<char>,
    deps: Seq<Seq<char>>,
) -> (RegV, Seq<char>)
    decreases deps.len(),
{
    if deps.len() == 0 {
        (reg, Seq::empty())
    } else {
        let (r1, x1) = emit_dep(reg, parents, te, deps[0]);
        let (r2, x2) = emit_deps(r1, parents, te, deps.drop_first());
        (r2, x1 + x2)
    }
}

/// One record: the target is registered first, never filled, then its
/// prerequisites follow.
pub open spec fn emit_record(reg: RegV, parents: Set<Seq<char>>, rec: RecV) -> (RegV, Seq<char>) {
    let te = escape_spec(rec.0);
    let (r1, x1) = spec_register(reg, te, false);
    let (r2, x2) = emit_deps(r1, parents, te, rec.1);
    (r2, x1 + x2)
}

/// All records, in input order.
pub open spec fn emit_records(reg: RegV, parents: Set<Seq<char>>, recs: Seq<RecV>) -> (
    RegV,
    Seq<char>,
)
    decreases recs.len(),
{
    if recs.len() == 0 {
        (reg, Seq::empty())
    } else {
        let (r1, x1) = emit_record(reg, parents, recs[0]);
        let (r2, x2) = emit_records(r1, parents, recs.drop_first());
        (r2, x1 + x2)
    }
}

/// Processing one more record at the end: the registry continues from the
/// registry of the prefix, and the text of the record is appended.
pub proof fn lemma_emit_records_snoc(reg: RegV, parents: Set<Seq<char>>, recs: Seq<RecV>, x: RecV)
    ensures
        emit_records(reg, parents, recs.push(x)).0 == emit_record(
            emit_records(reg, parents, recs).0,
            parents,
            x,
        ).0,
        emit_records(reg, parents, recs.push(x)).1 == emit_records(reg, parents, recs).1
            + emit_record(emit_records(reg, parents, recs).0, parents, x).1,
    decreases recs.len(),
{
    if recs.len() == 0 {
        assert(recs.push(x)[0] == x);
        assert(recs.push(x).drop_first() =~= Seq::<RecV>::empty());
        assert(emit_records(emit_record(reg, parents, x).0, parents, Seq::empty()).1 =~= Seq::<
            char,
        >::empty());
        assert(emit_record(reg, parents, x).1 + Seq::<char>::empty() =~= emit_record(
            reg,
            parents,
            x,
        ).1);
        assert(Seq::<char>::empty() + emit_record(reg, parents, x).1 =~= emit_record(
            reg,
            parents,
            x,
        ).1);
    } else {
        assert(recs.push(x)[0] == recs[0]);
        assert(recs.push(x).drop_first() =~= recs.drop_first().push(x));
        let r1 = emit_record(reg, parents, recs[0]).0;
        let x1 = emit_record(reg, parents, recs[0]).1;
        lemma_emit_records_snoc(r1, parents, recs.drop_first(), x);
        let rp = emit_records(r1, parents, recs.drop_first());
        let xr = emit_record(rp.0, parents, x).1;
        assert(x1 + (rp.1 + xr) =~= (x1 + rp.1) + xr);
    }
}

/// Processing one more prerequisite at the end, likewise.
pub proof fn lemma_emit_deps_snoc(
    reg: RegV,
    parents: Set<Seq<char>>,
    te: Seq<char>,
    deps: Seq<Seq<char>>,
    x: Seq<char>,
)
    ensures
        emit_deps(reg, parents, te, deps.push(x)).0 == emit_dep(
            emit_deps(reg, parents, te, deps).0,
            parents,
            te,
            x,
        ).0,
        emit_deps(reg, parents, te, deps.push(x)).1 == emit_deps(reg, parents, te, deps).1
            + emit_dep(emit_deps(reg, parents, te, deps).0, parents, te, x).1,
    decreases deps.len(),
{
    if deps.len() == 0 {
        assert(deps.push(x)[0] == x);
        assert(deps.push(x).drop_first() =~= Seq::<Seq<char>>::empty());
        assert(emit_deps(emit_dep(reg, parents, te, x).0, parents, te, Seq::empty()).1 =~= Seq::<
            char,
        >::empty());
        assert(emit_dep(reg, parents, te, x).1 + Seq::<char>::empty() =~= emit_dep(
            reg,
            parents,
            te,
            x,
        ).1);
        assert(Seq::<char>::empty() + emit_dep(reg, parents, te, x).1 =~= emit_dep(
            reg,
            parents,
            te,
            x,
        ).1);
    } else {
        assert(deps.push(x)[0] == deps[0]);
        assert(deps.push(x).drop_first() =~= deps.drop_first().push(x));
        let r1 = emit_dep(reg, parents, te, deps[0]).0;
        let x1 = emit_dep(reg, parents, te, deps[0]).1;
        lemma_emit_deps_snoc(r1, parents, te, deps.drop_first(), x);
        let rp = emit_deps(r1, parents, te, deps.drop_first());
        let xd = emit_dep(rp.0, parents, te, x).1;
        assert(x1 + (rp.1 + xd) =~= (x1 + rp.1) + xd);
    }
}

/// The fixed text that opens the graph description.
pub open spec fn preamble() -> Seq<char> {
    "digraph G {\n        graph [\n        rankdir=LR,\n    ]\n\n    node [\n        shape=box,\n        style=solid,\n        margin=\"0.3,0.1\",\n    ]\n\n    edge [\n        color=\"#00000088\",\n        dir=back,\n        penwidth=1.2,\n        minlen=1    \n    ]\n    subgraph cluster1{\n"@
}

/// The fixed text that closes the graph description.
pub open spec fn closing() -> Seq<char> {
    "}\n}\n"@
}

/// The whole graph description for the given records.
pub open spec fn spec_render(recs: Seq<RecV>) -> Seq<char> {
    preamble() + emit_records(Seq::empty(), parents_of(recs), recs).1 + closing()
}

/// Whether some element of `v` holds the characters `n`.
fn contains_name(v: &Vec<String>, n: &String) -> (r: bool)
    ensures
        r == (exists|j: int| 0 <= j < v@.len() && v@[j]@ == n@),
{
    let mut i: usize = 0;
    while i < v.len()
        invariant
            i <= v@.len(),
            forall|j: int| 0 <= j < i ==> v@[j]@ != n@,
        decreases v@.len() - i,
    {
        if str_eq(v[i].as_str(), n.as_str()) {
            return true;
        }
        i = i + 1;
    }
    false
}

/// Position of the first registry entry carrying `n`, if any.
fn reg_find(reg: &Vec<(String, bool)>, n: &String) -> (r: Option<usize>)
    ensures
        match r {
            Some(k) => k < reg@.len() && reg.deep_view()[k as int].0 == n@ && reg_index(
                reg.deep_view(),
                n@,
            ) == k as int,
            None => !reg_contains(reg.deep_view(), n@) && reg_index(reg.deep_view(), n@) == -1,
        },
{
    let ghost rv = reg.deep_view();
    let mut i: usize = 0;
    while i < reg.len()
        invariant
            i <= reg@.len(),
            rv == reg.deep_view(),
            rv.len() == reg@.len(),
            forall|j: int| 0 <= j < i ==> rv[j].0 != n@,
        decreases reg@.len() - i,
    {
        proof {
            assert(rv[i as int] == reg@[i as int].deep_view());
            assert(rv[i as int].0 == reg@[i as int].0@);
        }
        if str_eq(reg[i].0.as_str(), n.as_str()) {
            proof {
                assert(rv[i as int].0 == n@);
                assert(reg_contains(rv, n@));
                lemma_reg_index(rv, n@);
            }
            return Some(i);
        }
        i = i + 1;
    }
    proof {
        lemma_reg_index(rv, n@);
    }
    None
}

/// The identifier text of the node at registry position `k`.
fn node_id_string(k: usize) -> (r: String)
    ensures
        r@ == node_id(k as int),
{
    let mut r = String::from_str("n");
    let d = dec_string(k as u128 + 2);
    r.append(d.as_str());
    r
}

/// The node-declaration line for a name first met at registry position `k`.
fn node_line_string(k: usize, name: &String, filled: bool) -> (r: String)
    ensures
        r@ == node_line(k as int, name@, filled),
{
    let mut r = node_id_string(k);
    r.append("[label=\"");
    r.append(name.as_str());
    if filled {
        r.append("\", style = \"solid,filled\"]");
        r.append("\n");
        proof {
            assert(r@ =~= node_line(k as int, name@, true));
        }
    } else {
        r.append("\"]");
        r.append("\n");
        proof {
            assert(r@ =~= node_line(k as int, name@, false));
        }
    }
    r
}

/// The edge line from the node at position `t` to the node at position `d`.
fn edge_line_string(t: usize, d: usize) -> (r: String)
    ensures
        r@ == edge_line(t as int, d as int),
{
    let mut r = node_id_string(t);
    r.append(" -> ");
    let dn = node_id_string(d);
    r.append(dn.as_str());
    r.append("\n");
    proof {
        assert(r@ =~= edge_line(t as int, d as int));
    }
    r
}

/// Renders the records as a complete graph description: the fixed preamble,
/// one node declaration per distinct escaped name at its first occurrence,
/// one edge per dependency, and the fixed closing text.
#[verifier::loop_isolation(false)]
#[verifier::rlimit(60)]
pub fn render_dot_graph(targets: &Vec<Record>) -> (out: String)
    ensures
        out@ == spec_render(targets.deep_view()),
{
    let ghost recs = targets.deep_view();
    let ghost pset = parents_of(recs);

    let mut out = String::from_str(
        "digraph G {\n        graph [\n        rankdir=LR,\n    ]\n\n    node [\n        shape=box,\n        style=solid,\n        margin=\"0.3,0.1\",\n    ]\n\n    edge [\n        color=\"#00000088\",\n        dir=back,\n        penwidth=1.2,\n        minlen=1    \n    ]\n    subgraph cluster1{\n",
    );

    // The escaped name of every target, for leaf classification.
    let mut parents: Vec<String> = Vec::new();
    let mut t: usize = 0;
    while t < targets.len()
        invariant
            t <= targets@.len(),
            parents@.len() == t,
            forall|j: int| 0 <= j < t ==> parents@[j]@ == escape_spec(recs[j].0),
        decreases targets@.len() - t,
    {
        let e = escape(targets[t].target.as_str());
        parents.push(e);
        t = t + 1;
    }

    let mut reg: Vec<(String, bool)> = Vec::new();
    proof {
        assert(reg.deep_view() =~= Seq::<(Seq<char>, bool)>::empty());
        assert(recs.take(0) =~= Seq::<RecV>::empty());
        assert(out@ =~= preamble() + emit_records(Seq::empty(), pset, recs.take(0)).1);
    }
    let mut r: usize = 0;
    while r < targets.len()
        invariant
            r <= targets@.len(),
            reg.deep_view() == emit_records(Seq::empty(), pset, recs.take(r as int)).0,
            out@ == preamble() + emit_records(Seq::empty(), pset, recs.take(r as int)).1,
        decreases targets@.len() - r,
    {
        let ghost reg0 = reg.deep_view();
        let ghost base0 = out@;
        let ghost te = escape_spec(recs[r as int].0);
        proof {
            assert(recs[r as int] == targets@[r as int].deep_view());
            assert(recs[r as int].0 == targets@[r as int].target@);
            assert(recs[r as int].1 == targets@[r as int].prereqs.deep_view());
        }

        let t_esc = escape(targets[r].target.as_str());
        let tid: usize;
        match reg_find(&reg, &t_esc) {
            Some(k) => {
                tid = k;
            },
            None => {
                tid = reg.len();
                let nl = node_line_string(tid, &t_esc, false);
                out.append(nl.as_str());
                reg.push((t_esc, false));
                proof {
                    assert(reg.deep_view() =~= reg0.push((te, false)));
                }
            },
        }
        proof {
            assert(reg.deep_view() == spec_register(reg0, te, false).0);
            assert(out@ =~= base0 + spec_register(reg0, te, false).1);
            if reg_contains(reg0, te) {
                lemma_reg_index(reg0, te);
            } else {
                lemma_reg_index_push(reg0, (te, false), te);
            }
            assert(reg_index(reg.deep_view(), te) == tid as int);
            assert(reg.deep_view()[tid as int].0 == te);
            assert(reg_contains(reg.deep_view(), te));
        }
        let ghost reg1 = reg.deep_view();
        let ghost base1 = out@;
        let ghost depsv = recs[r as int].1;

        let mut d: usize = 0;
        while d < targets[r].prereqs.len()
            invariant
                d <= depsv.len(),
                depsv.len() == targets@[r as int].prereqs@.len(),
                reg.deep_view() == emit_deps(reg1, pset, te, depsv.take(d as int)).0,
                out@ == base1 + emit_deps(reg1, pset, te, depsv.take(d as int)).1,
                reg_index(reg.deep_view(), te) == tid as int,
                reg_contains(reg.deep_view(), te),
            decreases depsv.len() - d,
        {
            let ghost regd0 = reg.deep_view();
            let ghost based0 = out@;
            let ghost de = escape_spec(depsv[d as int]);

            let d_esc = escape(targets[r].prereqs[d].as_str());
            proof {
                assert(targets@[r as int].prereqs@[d as int]@ == depsv[d as int]);
            }
            let did: usize;
            match reg_find(&reg, &d_esc) {
                Some(k) => {
                    did = k;
                },
                None => {
                    did = reg.len();
                    let in_parents = contains_name(&parents, &d_esc);
                    proof {
                        assert(pset.contains(de) == (exists|i: int|
                            0 <= i < recs.len() && de == escape_spec(recs[i].0)));
                        if exists|j: int| 0 <= j < parents@.len() && parents@[j]@ == de {
                            let w = choose|j: int|
                                0 <= j < parents@.len() && parents@[j]@ == de;
                            assert(de == escape_spec(recs[w].0));
                            assert(pset.contains(de));
                        }
                        if pset.contains(de) {
                            let w = choose|i: int|
                                0 <= i < recs.len() && de == escape_spec(recs[i].0);
                            assert(parents@[w]@ == de);
                        }
                        assert((exists|j: int| 0 <= j < parents@.len() && parents@[j]@ == de)
                            == pset.contains(de));
                    }
                    let fill = !in_parents;
                    let nl = node_line_string(did, &d_esc, fill);
                    out.append(nl.as_str());
                    reg.push((d_esc, fill));
                    proof {
                        assert(reg.deep_view() =~= regd0.push((de, fill)));
                        lemma_reg_index_push(regd0, (de, fill), te);
                        lemma_reg_index_push(regd0, (de, fill), de);
                    }
                },
            }
            proof {
                assert(reg.deep_view() == spec_register(regd0, de, !pset.contains(de)).0);
                assert(out@ =~= based0 + spec_register(regd0, de, !pset.contains(de)).1);
                if reg_contains(regd0, de) {
                    lemma_reg_index(regd0, de);
                }
                lemma_reg_index(regd0, te);
                assert(regd0[tid as int].0 == te);
                assert(reg_index(reg.deep_view(), de) == did as int);
                assert(reg_index(reg.deep_view(), te) == tid as int);
                assert(reg.deep_view()[tid as int].0 == te);
                assert(reg_contains(reg.deep_view(), te));
            }
            let el = edge_line_string(tid, did);
            out.append(el.as_str());
            proof {
                let step = emit_dep(regd0, pset, te, depsv[d as int]);
                assert(step.0 == reg.deep_view());
                assert(out@ =~= based0 + step.1);
                lemma_emit_deps_snoc(reg1, pset, te, depsv.take(d as int), depsv[d as int]);
                assert(depsv.take(d as int).push(depsv[d as int]) =~= depsv.take(d as int + 1));
                assert(out@ =~= base1 + emit_deps(reg1, pset, te, depsv.take(d as int + 1)).1);
            }
            d = d + 1;
        }
        proof {
            assert(depsv.take(depsv.len() as int) =~= depsv);
            let er = emit_record(reg0, pset, recs[r as int]);
            assert(er.0 == reg.deep_view());
            assert(out@ =~= base0 + er.1);
            lemma_emit_records_snoc(Seq::empty(), pset, recs.take(r as int), recs[r as int]);
            assert(recs.take(r as int).push(recs[r as int]) =~= recs.take(r as int + 1));
            assert(out@ =~= preamble() + emit_records(Seq::empty(), pset, recs.take(
                r as int + 1,
            )).1);
        }
        r = r + 1;
    }
    out.append("}\n}\n");
    proof {
        assert(recs.take(recs.len() as int) =~= recs);
        assert(out@ =~= spec_render(recs));
    }
    out
}

} // verus!
