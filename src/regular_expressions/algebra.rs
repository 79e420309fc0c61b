use vstd::prelude::*;

use crate::finite_automata::farule::RuleModel;
use crate::finite_automata::nfa::run;
use crate::finite_automata::nfadesign::{DesignModel, design_accepts};
use crate::finite_automata::nfarulebook::{
    closure, is_closed, lemma_closure_closed, lemma_closure_extensive, lemma_closure_least, step,
};
use crate::finite_automata::renaming::{
    agree_outside, injective, lemma_closure_agree, lemma_design_accepts_rename, lemma_design_accepts_same,
    lemma_run_agree, misses, rename_design, rename_rules, same_rules,
};
use super::nullable::{
    design_inside, lemma_closure_edge, lemma_closure_more_rules, lemma_compile_region, lemma_start_in_closure,
    region, rules_within,
};
use super::regex::Regex;
use super::tonfa::{compile, fits, free_edges, free_rule, regex_matches, state_count};

verus! {

proof fn lemma_contains_concat<T>(a: Seq<T>, b: Seq<T>)
    ensures
        forall|x: T| (a + b).contains(x) <==> (a.contains(x) || b.contains(x)),
{
    assert forall|x: T| (a + b).contains(x) <==> (a.contains(x) || b.contains(x)) by {
        if (a + b).contains(x) {
            let k = choose|k: int| 0 <= k < (a + b).len() && (a + b)[k] == x;
            if k < a.len() {
                assert(a[k] == x);
            } else {
                assert(b[k - a.len()] == x);
            }
        }
        if a.contains(x) {
            let k = choose|k: int| 0 <= k < a.len() && a[k] == x;
            assert((a + b)[k] == x);
        }
        if b.contains(x) {
            let k = choose|k: int| 0 <= k < b.len() && b[k] == x;
            assert((a + b)[a.len() + k] == x);
        }
    }
}

proof fn lemma_rename_append(a: Seq<RuleModel>, b: Seq<RuleModel>, f: spec_fn(u64) -> u64)
    ensures
        rename_rules(a + b, f) == rename_rules(a, f) + rename_rules(b, f),
{
    assert(rename_rules(a + b, f) =~= rename_rules(a, f) + rename_rules(b, f));
}

proof fn lemma_map_append(a: Seq<u64>, b: Seq<u64>, f: spec_fn(u64) -> u64)
    ensures
        (a + b).map_values(f) == a.map_values(f) + b.map_values(f),
{
    assert((a + b).map_values(f) =~= a.map_values(f) + b.map_values(f));
}

proof fn lemma_rename_free_edges(from: Seq<u64>, to: u64, f: spec_fn(u64) -> u64)
    ensures
        rename_rules(free_edges(from, to), f) == free_edges(from.map_values(f), f(to)),
{
    assert(rename_rules(free_edges(from, to), f) =~= free_edges(from.map_values(f), f(to)));
}

proof fn lemma_count_positive(r: Regex)
    ensures
        state_count(r) >= 1,
    decreases r,
{
    match r {
        Regex::Concatenate(l, rr) => {
            lemma_count_positive(*l);
        },
        _ => {},
    }
}

/// Compiling from `m` on gives the automaton compiled from `n` on with its
/// states renamed by any `f` that moves the minted states from `n` to `m`.
pub proof fn lemma_compile_shift(r: Regex, n: nat, m: nat, f: spec_fn(u64) -> u64)
    requires
        n + state_count(r) <= u64::MAX + 1,
        m + state_count(r) <= u64::MAX + 1,
        forall|x: u64| n <= x < n + state_count(r) ==> #[trigger] f(x) == (x - n + m) as u64,
    ensures
        compile(r, m) == rename_design(compile(r, n), f),
    decreases r,
{
    let d = compile(r, n);
    let e = compile(r, m);
    let rd = rename_design(d, f);
    lemma_count_positive(r);
    assert(f(n as u64) == m as u64);
    match r {
        Regex::Empty => {
            assert(rd.accepts =~= e.accepts);
            assert(rd.rules =~= e.rules);
        },
        Regex::Literal(_) | Regex::CharSet(_, _) | Regex::Any => {
            assert(f((n + 1) as u64) == (m + 1) as u64);
            assert(rd.accepts =~= e.accepts);
            assert(rd.rules =~= e.rules);
        },
        Regex::Concatenate(l, rr) => {
            let cl = state_count(*l);
            lemma_compile_shift(*l, n, m, f);
            lemma_compile_shift(*rr, n + cl, m + cl, f);
            let a = compile(*l, n);
            let b = compile(*rr, n + cl);
            lemma_rename_append(a.rules, b.rules, f);
            lemma_rename_append(a.rules + b.rules, free_edges(a.accepts, b.start), f);
            lemma_rename_free_edges(a.accepts, b.start, f);
        },
        Regex::Choose(l, rr) => {
            let cl = state_count(*l);
            let cr = state_count(*rr);
            lemma_compile_shift(*l, n, m, f);
            lemma_compile_shift(*rr, n + cl, m + cl, f);
            let a = compile(*l, n);
            let b = compile(*rr, n + cl);
            let s = (n + cl + cr) as u64;
            assert(f(s) == (m + cl + cr) as u64);
            lemma_map_append(a.accepts, b.accepts, f);
            lemma_rename_append(a.rules, b.rules, f);
            let edges = seq![free_rule(s, a.start), free_rule(s, b.start)];
            lemma_rename_append(a.rules + b.rules, edges, f);
            assert(rename_rules(edges, f) =~= seq![free_rule(f(s), f(a.start)), free_rule(f(s), f(b.start))]);
        },
        Regex::Repeat(p) => {
            let cp = state_count(*p);
            lemma_compile_shift(*p, n, m, f);
            let a = compile(*p, n);
            let s = (n + cp) as u64;
            assert(f(s) == (m + cp) as u64);
            assert(a.accepts.push(s).map_values(f) =~= a.accepts.map_values(f).push(f(s)));
            lemma_rename_append(a.rules, free_edges(a.accepts.push(s), a.start), f);
            lemma_rename_free_edges(a.accepts.push(s), a.start, f);
        },
        Regex::Plus(p) => {
            let cp = state_count(*p);
            lemma_compile_shift(*p, n, m, f);
            let a = compile(*p, n);
            let s = (n + cp) as u64;
            assert(f(s) == (m + cp) as u64);
            let last = seq![free_rule(s, a.start)];
            lemma_rename_append(a.rules, free_edges(a.accepts, a.start), f);
            lemma_rename_append(a.rules + free_edges(a.accepts, a.start), last, f);
            lemma_rename_free_edges(a.accepts, a.start, f);
            assert(rename_rules(last, f) =~= seq![free_rule(f(s), f(a.start))]);
        },
        Regex::Optional(p) => {
            let cp = state_count(*p);
            lemma_compile_shift(*p, n, m, f);
            let a = compile(*p, n);
            let s = (n + cp) as u64;
            assert(f(s) == (m + cp) as u64);
            assert(a.accepts.push(s).map_values(f) =~= a.accepts.map_values(f).push(f(s)));
            assert(rename_rules(a.rules.push(free_rule(s, a.start)), f) =~= rename_rules(a.rules, f).push(
                free_rule(f(s), f(a.start)),
            ));
        },
    }
}

/// Choice is commutative: swapping the alternatives does not change which
/// strings are matched.
pub proof fn law_choose_commutes(a: Box<Regex>, b: Box<Regex>, input: Seq<char>)
    requires
        fits(Regex::Choose(a, b)),
    ensures
        regex_matches(Regex::Choose(a, b), input) == regex_matches(Regex::Choose(b, a), input),
{
    let ca = state_count(*a);
    let cb = state_count(*b);
    let f = |x: u64|
        if x < ca {
            (x + cb) as u64
        } else if x < ca + cb {
            (x - ca) as u64
        } else {
            x
        };
    assert(injective(f)) by {
        assert forall|x: u64, y: u64| #[trigger] f(x) == #[trigger] f(y) implies x == y by {}
    }
    lemma_compile_shift(*a, 0, cb, f);
    lemma_compile_shift(*b, ca, 0, f);
    let d = compile(Regex::Choose(a, b), 0);
    let e = compile(Regex::Choose(b, a), 0);
    let rd = rename_design(d, f);
    lemma_design_accepts_rename(d, input, f);
    let a0 = compile(*a, 0);
    let b0 = compile(*b, ca);
    let a1 = compile(*a, cb);
    let b1 = compile(*b, 0);
    let s = (ca + cb) as u64;
    assert(f(s) == s);
    lemma_map_append(a0.accepts, b0.accepts, f);
    assert(rd.accepts == a1.accepts + b1.accepts);
    lemma_contains_concat(a1.accepts, b1.accepts);
    lemma_contains_concat(b1.accepts, a1.accepts);
    assert(e.accepts == b1.accepts + a1.accepts);
    assert forall|x: u64| rd.accepts.to_set().contains(x) <==> e.accepts.to_set().contains(x) by {
        assert(rd.accepts.to_set().contains(x) <==> rd.accepts.contains(x));
        assert(e.accepts.to_set().contains(x) <==> e.accepts.contains(x));
        assert((a1.accepts + b1.accepts).contains(x) <==> (a1.accepts.contains(x) || b1.accepts.contains(x)));
        assert((b1.accepts + a1.accepts).contains(x) <==> (a1.accepts.contains(x) || b1.accepts.contains(x)));
    }
    assert(rd.accepts.to_set() =~= e.accepts.to_set());
    let edges = seq![free_rule(s, a0.start), free_rule(s, b0.start)];
    lemma_rename_append(a0.rules, b0.rules, f);
    lemma_rename_append(a0.rules + b0.rules, edges, f);
    let renamed_edges = seq![free_rule(s, a1.start), free_rule(s, b1.start)];
    assert(rename_rules(edges, f) =~= renamed_edges);
    assert(rd.rules == a1.rules + b1.rules + renamed_edges);
    let swapped_edges = seq![free_rule(s, b1.start), free_rule(s, a1.start)];
    assert(e.rules == b1.rules + a1.rules + swapped_edges);
    assert(same_rules(rd.rules, e.rules)) by {
        lemma_contains_concat(a1.rules, b1.rules);
        lemma_contains_concat(a1.rules + b1.rules, renamed_edges);
        lemma_contains_concat(b1.rules, a1.rules);
        lemma_contains_concat(b1.rules + a1.rules, swapped_edges);
        assert forall|r: RuleModel| renamed_edges.contains(r) <==> swapped_edges.contains(r) by {
            if renamed_edges.contains(r) {
                let k = choose|k: int| 0 <= k < renamed_edges.len() && renamed_edges[k] == r;
                assert(swapped_edges[1 - k] == r);
            }
            if swapped_edges.contains(r) {
                let k = choose|k: int| 0 <= k < swapped_edges.len() && swapped_edges[k] == r;
                assert(renamed_edges[1 - k] == r);
            }
        }
        assert forall|r: RuleModel| rd.rules.contains(r) <==> e.rules.contains(r) by {
            assert(rd.rules.contains(r) <==> ((a1.rules.contains(r) || b1.rules.contains(r)) || renamed_edges.contains(r)));
            assert(e.rules.contains(r) <==> ((b1.rules.contains(r) || a1.rules.contains(r)) || swapped_edges.contains(r)));
        }
    }
    lemma_design_accepts_same(rd, e, input);
}

/// A choice between a fresh accepting state `z` with no way out and `q`,
/// started from `s`, accepts what `q` made optional from `s` accepts.
proof fn lemma_optional_choice(q: DesignModel, reg: Set<u64>, z: u64, s: u64, input: Seq<char>)
    requires
        design_inside(q, reg),
        !reg.contains(z),
        !reg.contains(s),
        z != s,
    ensures
        design_accepts(
            DesignModel { start: s, accepts: q.accepts.push(s), rules: q.rules.push(free_rule(s, q.start)) },
            input,
        ) == design_accepts(
            DesignModel {
                start: s,
                accepts: seq![z] + q.accepts,
                rules: q.rules + seq![free_rule(s, z), free_rule(s, q.start)],
            },
            input,
        ),
{
    let r1 = q.rules.push(free_rule(s, q.start));
    let r2 = q.rules + seq![free_rule(s, z), free_rule(s, q.start)];
    let acc1 = q.accepts.push(s);
    let acc2 = seq![z] + q.accepts;
    let k1 = closure(r1, set![s]);
    let k2 = closure(r2, set![s]);
    let n: int = q.rules.len() as int;
    assert(r1[n] == free_rule(s, q.start));
    assert(r2[n] == free_rule(s, z));
    assert(r2[n + 1] == free_rule(s, q.start));
    assert forall|i: int| 0 <= i < n implies r1[i] == q.rules[i] && r2[i] == q.rules[i] by {}
    lemma_start_in_closure(r1, s);
    lemma_start_in_closure(r2, s);
    lemma_closure_edge(r2, set![s], s, z);
    assert(acc1.to_set().contains(s)) by {
        assert(acc1[q.accepts.len() as int] == s);
    }
    assert(acc2.to_set().contains(z)) by {
        assert(acc2[0] == z);
    }
    if input.len() == 0 {
        assert(run(r1, k1, input) == k1);
        assert(run(r2, k2, input) == k2);
    } else {
        // The second automaton's start closure is the first one's with `z` added.
        assert(rules_within(r1, r2)) by {
            assert forall|i: int| 0 <= i < r1.len() implies r2.contains(#[trigger] r1[i]) by {
                if i < n {
                    assert(r2[i] == r1[i]);
                } else {
                    assert(r2[n + 1] == r1[i]);
                }
            }
        }
        lemma_closure_more_rules(r1, r2, set![s]);
        let t = k1.insert(z);
        lemma_closure_closed(r1, set![s]);
        assert(is_closed(r2, t)) by {
            assert forall|i: int| 0 <= i < r2.len() && #[trigger] t.contains(r2[i].state) && r2[i].kind.fires(None)
                implies t.contains(r2[i].next_state) by {
                if i < n {
                    assert(reg.contains(q.rules[i].state));
                    assert(k1.contains(r1[i].state));
                } else if i == n + 1 {
                    assert(k1.contains(r1[n].state));
                }
            }
        }
        lemma_closure_extensive(r1, set![s]);
        lemma_closure_least(r2, set![s], t);
        assert(k2 =~= t);
        let c = input[0];
        let m1 = step(r1, k1, Some(c));
        let m2 = step(r2, k2, Some(c));
        let avoid = set![s, z];
        assert forall|x: u64| m1.contains(x) <==> m2.contains(x) by {
            if m1.contains(x) {
                let i = choose|i: int| 0 <= i < r1.len() && k1.contains(r1[i].state) && r1[i].kind.fires(Some(c)) && r1[i].next_state == x;
                assert(i < n);
                assert(r2[i] == r1[i]);
            }
            if m2.contains(x) {
                let i = choose|i: int| 0 <= i < r2.len() && k2.contains(r2[i].state) && r2[i].kind.fires(Some(c)) && r2[i].next_state == x;
                assert(i < n);
                assert(reg.contains(q.rules[i].state));
                assert(r1[i] == r2[i]);
            }
        }
        assert(m1 =~= m2);
        assert(misses(m1, avoid)) by {
            assert forall|x: u64| m1.contains(x) implies !avoid.contains(x) by {
                let i = choose|i: int| 0 <= i < r1.len() && k1.contains(r1[i].state) && r1[i].kind.fires(Some(c)) && r1[i].next_state == x;
                assert(i < n);
                assert(reg.contains(q.rules[i].next_state));
            }
        }
        assert(agree_outside(r1, r2, avoid)) by {
            assert forall|r: RuleModel| !avoid.contains(r.state) implies (r1.contains(r) <==> r2.contains(r)) by {
                if r1.contains(r) {
                    let i = choose|i: int| 0 <= i < r1.len() && r1[i] == r;
                    assert(i < n);
                    assert(r2[i] == r);
                }
                if r2.contains(r) {
                    let i = choose|i: int| 0 <= i < r2.len() && r2[i] == r;
                    assert(i < n);
                    assert(r1[i] == r);
                }
            }
            assert forall|i: int| 0 <= i < r1.len() && !avoid.contains(#[trigger] r1[i].state)
                implies !avoid.contains(r1[i].next_state) by {
                assert(i < n);
                assert(reg.contains(q.rules[i].state));
            }
            assert forall|i: int| 0 <= i < r2.len() && !avoid.contains(#[trigger] r2[i].state)
                implies !avoid.contains(r2[i].next_state) by {
                assert(i < n);
                assert(reg.contains(q.rules[i].state));
            }
        }
        lemma_closure_agree(r1, r2, avoid, m1);
        lemma_run_agree(r1, r2, avoid, closure(r1, m1), input.drop_first());
        let y = run(r1, closure(r1, m1), input.drop_first());
        assert(run(r1, k1, input) == y);
        assert(run(r2, k2, input) == y);
        assert forall|x: u64| y.contains(x) implies (acc1.to_set().contains(x) <==> q.accepts.contains(x)) && (
        acc2.to_set().contains(x) <==> q.accepts.contains(x)) by {
            assert(!avoid.contains(x));
            lemma_contains_concat(q.accepts, seq![s]);
            lemma_contains_concat(seq![z], q.accepts);
            assert(acc1 =~= q.accepts + seq![s]);
        }
    }
}

/// An optional expression matches exactly what the choice between the empty
/// expression and it matches.
pub proof fn law_optional_is_choice_with_empty(p: Box<Regex>, input: Seq<char>)
    requires
        fits(Regex::Choose(Box::new(Regex::Empty), p)),
    ensures
        regex_matches(Regex::Optional(p), input) == regex_matches(
            Regex::Choose(Box::new(Regex::Empty), p),
            input,
        ),
{
    let cp = state_count(*p);
    let f = |x: u64|
        if x <= cp {
            (x + 1) as u64
        } else if x == cp + 1 {
            0u64
        } else {
            x
        };
    assert(injective(f)) by {
        assert forall|x: u64, y: u64| #[trigger] f(x) == #[trigger] f(y) implies x == y by {}
    }
    lemma_compile_shift(*p, 0, 1, f);
    lemma_compile_region(*p, 1);
    let o = compile(Regex::Optional(p), 0);
    let c = compile(Regex::Choose(Box::new(Regex::Empty), p), 0);
    lemma_design_accepts_rename(o, input, f);
    let first_copy = compile(*p, 0);
    let moved_copy = compile(*p, 1);
    let s = (cp + 1) as u64;
    assert(f(cp as u64) == s);
    let ro = rename_design(o, f);
    assert(ro.accepts =~= moved_copy.accepts.push(s));
    assert(ro.rules =~= moved_copy.rules.push(free_rule(s, moved_copy.start)));
    let empty = compile(Regex::Empty, 0);
    assert(empty.accepts =~= seq![0u64]);
    assert(empty.rules =~= Seq::<RuleModel>::empty());
    assert(state_count(Regex::Empty) == 1);
    assert(*Box::new(Regex::Empty) == Regex::Empty);
    assert(c.accepts == empty.accepts + moved_copy.accepts);
    assert(c.accepts =~= seq![0u64] + moved_copy.accepts);
    assert(c.rules =~= moved_copy.rules + seq![free_rule(s, 0u64), free_rule(s, moved_copy.start)]);
    lemma_optional_choice(moved_copy, region(1, cp), 0u64, s, input);
}

} // verus!
