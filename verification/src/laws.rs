//! Properties of the emitter proved once and for all: every distinct name
//! is registered exactly once, styling follows the target/leaf
//! classification, and registration order follows first occurrence.

use vstd::prelude::*;

use crate::emitter::{
    emit_dep, emit_deps, emit_record, emit_records, parents_of, reg_contains, spec_register, RecV,
    RegV,
};
use crate::text::escape_spec;

verus! {

/// No two registry entries carry the same name.
pub open spec fn reg_distinct(reg: RegV) -> bool {
    forall|a: int, b: int| 0 <= a < b < reg.len() ==> reg[a].0 != reg[b].0
}

/// The escaped name `n` occurs somewhere in the records, as a target or as
/// a prerequisite.
pub open spec fn name_occurs(recs: Seq<RecV>, n: Seq<char>) -> bool {
    exists|i: int|
        0 <= i < recs.len() && (n == escape_spec(recs[i].0) || exists|j: int|
            0 <= j < recs[i].1.len() && n == escape_spec(recs[i].1[j]))
}

/// What registering one name does to the registry: at most one entry is
/// appended, existing entries stay where they are, distinctness is kept,
/// and afterwards the registry holds exactly the old names plus the new one.
pub proof fn lemma_register_props(reg: RegV, name: Seq<char>, filled: bool)
    ensures
        ({
            let r1 = spec_register(reg, name, filled).0;
            &&& reg.len() <= r1.len()
            &&& (forall|k: int| 0 <= k < reg.len() ==> r1[k] == reg[k])
            &&& (reg_distinct(reg) ==> reg_distinct(r1))
            &&& (forall|m: Seq<char>|
                reg_contains(r1, m) <==> (reg_contains(reg, m) || m == name))
            &&& (forall|k: int| reg.len() <= k < r1.len() ==> r1[k] == (name, filled))
        }),
{
    if reg_contains(reg, name) {
    } else {
        let r1 = reg.push((name, filled));
        assert forall|m: Seq<char>| reg_contains(r1, m) implies (reg_contains(reg, m) || m
            == name) by {
            let w = choose|k: int| 0 <= k < r1.len() && r1[k].0 == m;
            if w < reg.len() {
                assert(reg[w].0 == m);
            }
        }
        assert forall|m: Seq<char>| (reg_contains(reg, m) || m == name) implies reg_contains(
            r1,
            m,
        ) by {
            if reg_contains(reg, m) {
                let w = choose|k: int| 0 <= k < reg.len() && reg[k].0 == m;
                assert(r1[w].0 == m);
            } else {
                assert(r1[reg.len() as int].0 == m);
            }
        }
        if reg_distinct(reg) {
            assert forall|a: int, b: int| 0 <= a < b < r1.len() implies r1[a].0 != r1[b].0 by {
                if b == reg.len() {
                    if r1[a].0 == name {
                        assert(reg[a].0 == name);
                        assert(reg_contains(reg, name));
                    }
                }
            }
        }
    }
}

/// The same bookkeeping across the prerequisites of one record. Every entry
/// appended here styles a prerequisite: filled exactly when the name is no
/// target.
pub proof fn lemma_emit_deps_props(
    reg: RegV,
    pset: Set<Seq<char>>,
    te: Seq<char>,
    deps: Seq<Seq<char>>,
)
    ensures
        ({
            let r1 = emit_deps(reg, pset, te, deps).0;
            &&& reg.len() <= r1.len()
            &&& (forall|k: int| 0 <= k < reg.len() ==> r1[k] == reg[k])
            &&& (reg_distinct(reg) ==> reg_distinct(r1))
            &&& (forall|m: Seq<char>|
                reg_contains(r1, m) <==> (reg_contains(reg, m) || exists|j: int|
                    0 <= j < deps.len() && m == escape_spec(deps[j])))
            &&& (forall|k: int|
                reg.len() <= k < r1.len() ==> r1[k].1 == !pset.contains(r1[k].0))
        }),
    decreases deps.len(),
{
    if deps.len() == 0 {
    } else {
        let de = escape_spec(deps[0]);
        let fill = !pset.contains(de);
        let ra = spec_register(reg, de, fill).0;
        lemma_register_props(reg, de, fill);
        assert(emit_dep(reg, pset, te, deps[0]).0 == ra);
        lemma_emit_deps_props(ra, pset, te, deps.drop_first());
        let r1 = emit_deps(ra, pset, te, deps.drop_first()).0;
        assert(emit_deps(reg, pset, te, deps).0 == r1);
        assert forall|m: Seq<char>| reg_contains(r1, m) implies (reg_contains(reg, m) || exists|
            j: int,
        | 0 <= j < deps.len() && m == escape_spec(deps[j])) by {
            if reg_contains(ra, m) {
                if !reg_contains(reg, m) {
                    assert(m == escape_spec(deps[0]));
                }
            } else {
                let w = choose|j: int|
                    0 <= j < deps.drop_first().len() && m == escape_spec(deps.drop_first()[j]);
                assert(deps.drop_first()[w] == deps[w + 1]);
            }
        }
        assert forall|m: Seq<char>| (reg_contains(reg, m) || exists|j: int|
            0 <= j < deps.len() && m == escape_spec(deps[j])) implies reg_contains(r1, m) by {
            if reg_contains(reg, m) {
                assert(reg_contains(ra, m));
            } else {
                let w = choose|j: int| 0 <= j < deps.len() && m == escape_spec(deps[j]);
                if w == 0 {
                    assert(reg_contains(ra, m));
                } else {
                    assert(deps.drop_first()[w - 1] == deps[w]);
                    assert(exists|j: int|
                        0 <= j < deps.drop_first().len() && m == escape_spec(
                            deps.drop_first()[j],
                        ));
                }
            }
        }
        assert forall|k: int| reg.len() <= k < r1.len() implies r1[k].1 == !pset.contains(
            r1[k].0,
        ) by {
            if k < ra.len() {
                assert(r1[k] == ra[k]);
                assert(ra[k] == (de, fill));
            }
        }
    }
}

/// The same bookkeeping across one whole record: afterwards the registry
/// holds the old names, the escaped target, and the escaped prerequisites.
/// When the target's name counts as a parent, every entry appended here is
/// filled exactly when its name is no parent.
pub proof fn lemma_emit_record_props(reg: RegV, pset: Set<Seq<char>>, rec: RecV)
    ensures
        ({
            let r1 = emit_record(reg, pset, rec).0;
            &&& reg.len() <= r1.len()
            &&& (forall|k: int| 0 <= k < reg.len() ==> r1[k] == reg[k])
            &&& (reg_distinct(reg) ==> reg_distinct(r1))
            &&& (forall|m: Seq<char>|
                reg_contains(r1, m) <==> (reg_contains(reg, m) || m == escape_spec(rec.0)
                    || exists|j: int| 0 <= j < rec.1.len() && m == escape_spec(rec.1[j])))
            &&& (pset.contains(escape_spec(rec.0)) ==> forall|k: int|
                reg.len() <= k < r1.len() ==> r1[k].1 == !pset.contains(r1[k].0))
        }),
{
    let te = escape_spec(rec.0);
    let ra = spec_register(reg, te, false).0;
    lemma_register_props(reg, te, false);
    lemma_emit_deps_props(ra, pset, te, rec.1);
    let r1 = emit_deps(ra, pset, te, rec.1).0;
    assert(emit_record(reg, pset, rec).0 == r1);
    if pset.contains(te) {
        assert forall|k: int| reg.len() <= k < r1.len() implies r1[k].1 == !pset.contains(
            r1[k].0,
        ) by {
            if k < ra.len() {
                assert(r1[k] == ra[k]);
                assert(ra[k] == (te, false));
            }
        }
    }
}

/// The same bookkeeping across all records.
pub proof fn lemma_emit_records_props(reg: RegV, pset: Set<Seq<char>>, recs: Seq<RecV>)
    ensures
        ({
            let r1 = emit_records(reg, pset, recs).0;
            &&& reg.len() <= r1.len()
            &&& (forall|k: int| 0 <= k < reg.len() ==> r1[k] == reg[k])
            &&& (reg_distinct(reg) ==> reg_distinct(r1))
            &&& (forall|m: Seq<char>|
                reg_contains(r1, m) <==> (reg_contains(reg, m) || name_occurs(recs, m)))
            &&& ((forall|i: int| 0 <= i < recs.len() ==> pset.contains(escape_spec(recs[i].0)))
                ==> forall|k: int|
                reg.len() <= k < r1.len() ==> r1[k].1 == !pset.contains(r1[k].0))
        }),
    decreases recs.len(),
{
    if recs.len() == 0 {
        assert forall|m: Seq<char>| !name_occurs(recs, m) by {}
    } else {
        let rec = recs[0];
        let ra = emit_record(reg, pset, rec).0;
        lemma_emit_record_props(reg, pset, rec);
        lemma_emit_records_props(ra, pset, recs.drop_first());
        let r1 = emit_records(ra, pset, recs.drop_first()).0;
        assert(emit_records(reg, pset, recs).0 == r1);
        assert forall|m: Seq<char>| reg_contains(r1, m) implies (reg_contains(reg, m)
            || name_occurs(recs, m)) by {
            if reg_contains(ra, m) {
                if !reg_contains(reg, m) {
                    assert(m == escape_spec(recs[0].0) || exists|j: int|
                        0 <= j < recs[0].1.len() && m == escape_spec(recs[0].1[j]));
                    assert(name_occurs(recs, m));
                }
            } else {
                assert(name_occurs(recs.drop_first(), m));
                let w = choose|i: int|
                    0 <= i < recs.drop_first().len() && (m == escape_spec(
                        recs.drop_first()[i].0,
                    ) || exists|j: int|
                        0 <= j < recs.drop_first()[i].1.len() && m == escape_spec(
                            recs.drop_first()[i].1[j],
                        ));
                assert(recs.drop_first()[w] == recs[w + 1]);
                assert(name_occurs(recs, m));
            }
        }
        assert forall|m: Seq<char>| (reg_contains(reg, m) || name_occurs(recs, m)) implies
            reg_contains(r1, m) by {
            if reg_contains(reg, m) {
                assert(reg_contains(ra, m));
            } else {
                let w = choose|i: int|
                    0 <= i < recs.len() && (m == escape_spec(recs[i].0) || exists|j: int|
                        0 <= j < recs[i].1.len() && m == escape_spec(recs[i].1[j]));
                if w == 0 {
                    assert(reg_contains(ra, m));
                } else {
                    assert(recs.drop_first()[w - 1] == recs[w]);
                    assert(name_occurs(recs.drop_first(), m));
                }
            }
        }
        if forall|i: int| 0 <= i < recs.len() ==> pset.contains(escape_spec(recs[i].0)) {
            assert(forall|i: int|
                0 <= i < recs.drop_first().len() ==> recs.drop_first()[i] == recs[i + 1]);
            assert forall|k: int| reg.len() <= k < r1.len() implies r1[k].1 == !pset.contains(
                r1[k].0,
            ) by {
                if k < ra.len() {
                    assert(r1[k] == ra[k]);
                }
            }
        }
    }
}

/// Law: for all records, every distinct escaped name is registered exactly
/// once: the final registry is free of duplicate names and carries
/// precisely the names that occur in the records. Since each registry entry
/// is appended together with its one node-declaration line, every distinct
/// name appears in exactly one node declaration, however many records
/// mention it.
pub proof fn lemma_each_name_once(recs: Seq<RecV>)
    ensures
        ({
            let reg = emit_records(Seq::empty(), parents_of(recs), recs).0;
            &&& reg_distinct(reg)
            &&& (forall|m: Seq<char>| reg_contains(reg, m) <==> name_occurs(recs, m))
        }),
{
    let empty = Seq::<(Seq<char>, bool)>::empty();
    assert(reg_distinct(empty));
    assert(forall|m: Seq<char>| !reg_contains(empty, m));
    lemma_emit_records_props(empty, parents_of(recs), recs);
}

/// Law: a name that appears as a target in any record is never styled
/// filled, even when it also stands among someone's prerequisites.
pub proof fn lemma_target_never_filled(recs: Seq<RecV>, i: int, k: int)
    requires
        0 <= i < recs.len(),
        0 <= k < emit_records(Seq::empty(), parents_of(recs), recs).0.len(),
        emit_records(Seq::empty(), parents_of(recs), recs).0[k].0 == escape_spec(recs[i].0),
    ensures
        !emit_records(Seq::empty(), parents_of(recs), recs).0[k].1,
{
    let pset = parents_of(recs);
    assert forall|j: int| 0 <= j < recs.len() implies pset.contains(escape_spec(recs[j].0)) by {
        assert(exists|w: int| 0 <= w < recs.len() && escape_spec(recs[j].0) == escape_spec(
            recs[w].0,
        ));
    }
    lemma_emit_records_props(Seq::empty(), pset, recs);
}

/// Law: a name that occurs only as a prerequisite, never as a target, is
/// registered, and every registry entry carrying it is styled filled.
pub proof fn lemma_leaf_always_filled(recs: Seq<RecV>, n: Seq<char>)
    requires
        name_occurs(recs, n),
        !parents_of(recs).contains(n),
    ensures
        ({
            let reg = emit_records(Seq::empty(), parents_of(recs), recs).0;
            &&& reg_contains(reg, n)
            &&& (forall|k: int| 0 <= k < reg.len() && reg[k].0 == n ==> reg[k].1)
        }),
{
    let pset = parents_of(recs);
    assert forall|j: int| 0 <= j < recs.len() implies pset.contains(escape_spec(recs[j].0)) by {
        assert(exists|w: int| 0 <= w < recs.len() && escape_spec(recs[j].0) == escape_spec(
            recs[w].0,
        ));
    }
    lemma_emit_records_props(Seq::empty(), pset, recs);
}

/// The escaped forms of a record's prerequisites, in order.
pub open spec fn esc_all(deps: Seq<Seq<char>>) -> Seq<Seq<char>> {
    deps.map_values(|d: Seq<char>| escape_spec(d))
}

/// The flattened walk of the records: for each record in input order, the
/// escaped target first, then its escaped prerequisites in order.
pub open spec fn flat_names(recs: Seq<RecV>) -> Seq<Seq<char>>
    decreases recs.len(),
{
    if recs.len() == 0 {
        Seq::empty()
    } else {
        seq![escape_spec(recs[0].0)] + esc_all(recs[0].1) + flat_names(recs.drop_first())
    }
}

/// The set of names that occur in a name sequence.
pub open spec fn names_in(s: Seq<Seq<char>>) -> Set<Seq<char>> {
    Set::new(|m: Seq<char>| exists|i: int| 0 <= i < s.len() && s[i] == m)
}

/// The set of names the registry holds.
pub open spec fn seen_names(reg: RegV) -> Set<Seq<char>> {
    Set::new(|m: Seq<char>| reg_contains(reg, m))
}

/// The subsequence of first occurrences: each name of `s` that is neither
/// in `seen` nor seen earlier in `s`, at its first position.
pub open spec fn first_occurrences(s: Seq<Seq<char>>, seen: Set<Seq<char>>) -> Seq<Seq<char>>
    decreases s.len(),
{
    if s.len() == 0 {
        Seq::empty()
    } else if seen.contains(s[0]) {
        first_occurrences(s.drop_first(), seen)
    } else {
        seq![s[0]] + first_occurrences(s.drop_first(), seen.insert(s[0]))
    }
}

/// The names of the registry entries, in registry order.
pub open spec fn reg_names(reg: RegV) -> Seq<Seq<char>> {
    reg.map_values(|e: (Seq<char>, bool)| e.0)
}

/// Splitting a walk: the first occurrences of a concatenation are the first
/// occurrences of the front, then those of the back with the front's names
/// counted as seen.
pub proof fn lemma_first_occ_append(s1: Seq<Seq<char>>, s2: Seq<Seq<char>>, seen: Set<Seq<char>>)
    ensures
        first_occurrences(s1 + s2, seen) == first_occurrences(s1, seen) + first_occurrences(
            s2,
            seen.union(names_in(s1)),
        ),
    decreases s1.len(),
{
    if s1.len() == 0 {
        assert(s1 + s2 =~= s2);
        assert(first_occurrences(s1, seen) =~= Seq::<Seq<char>>::empty());
        assert(seen.union(names_in(s1)) =~= seen);
        assert(Seq::<Seq<char>>::empty() + first_occurrences(s2, seen) =~= first_occurrences(
            s2,
            seen,
        ));
    } else {
        let h = s1[0];
        assert((s1 + s2)[0] == h);
        assert((s1 + s2).drop_first() =~= s1.drop_first() + s2);
        assert forall|m: Seq<char>| names_in(s1).contains(m) implies names_in(
            s1.drop_first(),
        ).insert(h).contains(m) by {
            let w = choose|i: int| 0 <= i < s1.len() && s1[i] == m;
            if w > 0 {
                assert(s1.drop_first()[w - 1] == m);
            }
        }
        assert forall|m: Seq<char>| names_in(s1.drop_first()).insert(h).contains(m) implies
            names_in(s1).contains(m) by {
            if m == h {
                assert(s1[0] == m);
            } else {
                let w = choose|i: int| 0 <= i < s1.drop_first().len() && s1.drop_first()[i] == m;
                assert(s1[w + 1] == m);
            }
        }
        assert(names_in(s1) =~= names_in(s1.drop_first()).insert(h));
        if seen.contains(h) {
            lemma_first_occ_append(s1.drop_first(), s2, seen);
            assert(seen.union(names_in(s1)) =~= seen.union(names_in(s1.drop_first())));
        } else {
            lemma_first_occ_append(s1.drop_first(), s2, seen.insert(h));
            assert(seen.insert(h).union(names_in(s1.drop_first())) =~= seen.union(names_in(s1)));
            assert(seq![h] + (first_occurrences(s1.drop_first(), seen.insert(h))
                + first_occurrences(s2, seen.union(names_in(s1)))) =~= (seq![h]
                + first_occurrences(s1.drop_first(), seen.insert(h))) + first_occurrences(
                s2,
                seen.union(names_in(s1)),
            ));
        }
    }
}

/// Registering the prerequisites appends exactly their unseen first
/// occurrences to the registry's name list.
pub proof fn lemma_emit_deps_names(
    reg: RegV,
    pset: Set<Seq<char>>,
    te: Seq<char>,
    deps: Seq<Seq<char>>,
)
    ensures
        reg_names(emit_deps(reg, pset, te, deps).0) == reg_names(reg) + first_occurrences(
            esc_all(deps),
            seen_names(reg),
        ),
    decreases deps.len(),
{
    if deps.len() == 0 {
        assert(esc_all(deps) =~= Seq::<Seq<char>>::empty());
        assert(reg_names(reg) + Seq::<Seq<char>>::empty() =~= reg_names(reg));
    } else {
        let de = escape_spec(deps[0]);
        let fill = !pset.contains(de);
        let ra = spec_register(reg, de, fill).0;
        lemma_register_props(reg, de, fill);
        assert(emit_dep(reg, pset, te, deps[0]).0 == ra);
        assert(esc_all(deps)[0] == de);
        assert(esc_all(deps).drop_first() =~= esc_all(deps.drop_first()));
        lemma_emit_deps_names(ra, pset, te, deps.drop_first());
        if reg_contains(reg, de) {
            assert(ra == reg);
            assert(seen_names(reg).contains(de));
        } else {
            assert(reg_names(ra) =~= reg_names(reg).push(de));
            assert(seen_names(ra) =~= seen_names(reg).insert(de));
            assert(reg_names(reg).push(de) + first_occurrences(
                esc_all(deps.drop_first()),
                seen_names(ra),
            ) =~= reg_names(reg) + (seq![de] + first_occurrences(
                esc_all(deps.drop_first()),
                seen_names(reg).insert(de),
            )));
        }
    }
}

/// Registering one whole record appends exactly the unseen first
/// occurrences of its walk (target first, then prerequisites).
pub proof fn lemma_emit_record_names(reg: RegV, pset: Set<Seq<char>>, rec: RecV)
    ensures
        reg_names(emit_record(reg, pset, rec).0) == reg_names(reg) + first_occurrences(
            seq![escape_spec(rec.0)] + esc_all(rec.1),
            seen_names(reg),
        ),
{
    let te = escape_spec(rec.0);
    let b0 = seq![te] + esc_all(rec.1);
    assert(b0[0] == te);
    assert(b0.drop_first() =~= esc_all(rec.1));
    let ra = spec_register(reg, te, false).0;
    lemma_register_props(reg, te, false);
    lemma_emit_deps_names(ra, pset, te, rec.1);
    if reg_contains(reg, te) {
        assert(ra == reg);
        assert(seen_names(reg).contains(te));
    } else {
        assert(reg_names(ra) =~= reg_names(reg).push(te));
        assert(seen_names(ra) =~= seen_names(reg).insert(te));
        assert(reg_names(reg).push(te) + first_occurrences(esc_all(rec.1), seen_names(ra))
            =~= reg_names(reg) + (seq![te] + first_occurrences(
            esc_all(rec.1),
            seen_names(reg).insert(te),
        )));
    }
}

/// Registering all records appends exactly the first occurrences of the
/// flattened walk to the registry's name list.
pub proof fn lemma_emit_records_names(reg: RegV, pset: Set<Seq<char>>, recs: Seq<RecV>)
    ensures
        reg_names(emit_records(reg, pset, recs).0) == reg_names(reg) + first_occurrences(
            flat_names(recs),
            seen_names(reg),
        ),
    decreases recs.len(),
{
    if recs.len() == 0 {
        assert(flat_names(recs) =~= Seq::<Seq<char>>::empty());
        assert(first_occurrences(flat_names(recs), seen_names(reg)) =~= Seq::<Seq<char>>::empty());
        assert(reg_names(reg) + Seq::<Seq<char>>::empty() =~= reg_names(reg));
    } else {
        let rec = recs[0];
        let te = escape_spec(rec.0);
        let b0 = seq![te] + esc_all(rec.1);
        assert(flat_names(recs) == b0 + flat_names(recs.drop_first()));
        let ra = emit_record(reg, pset, rec).0;
        lemma_emit_record_names(reg, pset, rec);
        lemma_emit_record_props(reg, pset, rec);
        lemma_emit_records_names(ra, pset, recs.drop_first());
        assert forall|m: Seq<char>| seen_names(ra).contains(m) implies seen_names(reg).union(
            names_in(b0),
        ).contains(m) by {
            if !reg_contains(reg, m) {
                if m == te {
                    assert(b0[0] == m);
                } else {
                    let w = choose|j: int| 0 <= j < rec.1.len() && m == escape_spec(rec.1[j]);
                    assert(b0[w + 1] == m);
                }
            }
        }
        assert forall|m: Seq<char>| seen_names(reg).union(names_in(b0)).contains(m) implies
            seen_names(ra).contains(m) by {
            if !reg_contains(reg, m) {
                let w = choose|i: int| 0 <= i < b0.len() && b0[i] == m;
                if w > 0 {
                    assert(b0[w] == esc_all(rec.1)[w - 1]);
                    assert(m == escape_spec(rec.1[w - 1]));
                }
            }
        }
        assert(seen_names(ra) =~= seen_names(reg).union(names_in(b0)));
        lemma_first_occ_append(b0, flat_names(recs.drop_first()), seen_names(reg));
        assert((reg_names(reg) + first_occurrences(b0, seen_names(reg))) + first_occurrences(
            flat_names(recs.drop_first()),
            seen_names(ra),
        ) =~= reg_names(reg) + (first_occurrences(b0, seen_names(reg)) + first_occurrences(
            flat_names(recs.drop_first()),
            seen_names(reg).union(names_in(b0)),
        )));
    }
}

/// Law: node identifiers are assigned in strictly increasing counter order
/// matching first-occurrence order. The names in the final registry are
/// exactly the first occurrences in the flattened walk of the records --
/// each target before its own prerequisites, records in input order -- and
/// the node at registry position `k` carries counter `k + 2`, so a later
/// first occurrence always gets a strictly larger counter.
pub proof fn lemma_ids_follow_first_occurrence(recs: Seq<RecV>)
    ensures
        reg_names(emit_records(Seq::empty(), parents_of(recs), recs).0) == first_occurrences(
            flat_names(recs),
            Set::empty(),
        ),
{
    let empty = Seq::<(Seq<char>, bool)>::empty();
    lemma_emit_records_names(empty, parents_of(recs), recs);
    assert(reg_names(empty) =~= Seq::<Seq<char>>::empty());
    assert(seen_names(empty) =~= Set::<Seq<char>>::empty());
    assert(Seq::<Seq<char>>::empty() + first_occurrences(flat_names(recs), Set::empty())
        =~= first_occurrences(flat_names(recs), Set::empty()));
}

} // verus!
