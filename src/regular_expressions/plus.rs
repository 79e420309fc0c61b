use vstd::prelude::*;

use crate::finite_automata::farule::RuleModel;
use crate::finite_automata::nfa::{meets, run};
use crate::finite_automata::nfadesign::DesignModel;
use crate::finite_automata::nfarulebook::{
    closure, is_closed, lemma_closure_extensive, lemma_closure_idempotent, lemma_closure_least, step,
};
use super::algebra::lemma_compile_shift;
use super::nullable::{design_inside, lemma_compile_region, lemma_start_in_closure, region};
use super::regex::Regex;
use super::tonfa::{compile, fits, free_edges, free_rule, regex_matches, state_count};

verus! {

/// `q` is `p` with every state moved up by `c`.
pub open spec fn shifted(p: DesignModel, q: DesignModel, c: nat) -> bool {
    &&& q.start == (p.start + c) as u64
    &&& q.accepts.len() == p.accepts.len()
    &&& forall|k: int| 0 <= k < p.accepts.len() ==> #[trigger] q.accepts[k] == (p.accepts[k] + c) as u64
    &&& q.rules.len() == p.rules.len()
    &&& forall|i: int|
        0 <= i < p.rules.len() ==> #[trigger] q.rules[i] == (RuleModel {
            state: (p.rules[i].state + c) as u64,
            kind: p.rules[i].kind,
            next_state: (p.rules[i].next_state + c) as u64,
        })
}

/// The rules of the one-or-more automaton built on `p`, started from `c`.
pub open spec fn plus_rules(p: DesignModel, c: nat) -> Seq<RuleModel> {
    p.rules + free_edges(p.accepts, p.start) + seq![free_rule(c as u64, p.start)]
}

/// The rules of `p` followed by the star automaton built on its copy `q`,
/// whose start is `2 * c`.
pub open spec fn cat_rules(p: DesignModel, q: DesignModel, c: nat) -> Seq<RuleModel> {
    p.rules + (q.rules + free_edges(q.accepts.push((2 * c) as u64), q.start)) + free_edges(
        p.accepts,
        (2 * c) as u64,
    )
}

/// The setting shared by both directions: `p` uses the states below `c`,
/// and its copy `q` the next `c` ones.
pub open spec fn setting(p: DesignModel, q: DesignModel, c: nat) -> bool {
    &&& design_inside(p, region(0, c))
    &&& shifted(p, q, c)
    &&& 2 * c <= u64::MAX
}

proof fn lemma_plus_layout(p: DesignModel, c: nat)
    ensures
        plus_rules(p, c).len() == p.rules.len() + p.accepts.len() + 1,
        forall|i: int| 0 <= i < p.rules.len() ==> #[trigger] plus_rules(p, c)[i] == p.rules[i],
        forall|k: int|
            0 <= k < p.accepts.len() ==> #[trigger] plus_rules(p, c)[p.rules.len() + k] == free_rule(
                p.accepts[k],
                p.start,
            ),
        plus_rules(p, c)[(p.rules.len() + p.accepts.len()) as int] == free_rule(c as u64, p.start),
{
    let e = free_edges(p.accepts, p.start);
    assert forall|k: int| 0 <= k < p.accepts.len() implies #[trigger] plus_rules(p, c)[p.rules.len() + k]
        == free_rule(p.accepts[k], p.start) by {
        assert(plus_rules(p, c)[p.rules.len() + k] == e[k]);
    }
}

proof fn lemma_cat_layout(p: DesignModel, q: DesignModel, c: nat)
    requires
        q.rules.len() == p.rules.len(),
        q.accepts.len() == p.accepts.len(),
    ensures
        ({
            let n: int = p.rules.len() as int;
            let m: int = p.accepts.len() as int;
            let s2 = (2 * c) as u64;
            let rc = cat_rules(p, q, c);
            &&& rc.len() == 2 * n + 2 * m + 1
            &&& forall|i: int| 0 <= i < n ==> #[trigger] rc[i] == p.rules[i]
            &&& forall|i: int| 0 <= i < n ==> #[trigger] rc[n + i] == q.rules[i]
            &&& forall|k: int| 0 <= k < m ==> #[trigger] rc[2 * n + k] == free_rule(q.accepts[k], q.start)
            &&& rc[2 * n + m] == free_rule(s2, q.start)
            &&& forall|k: int| 0 <= k < m ==> #[trigger] rc[2 * n + m + 1 + k] == free_rule(p.accepts[k], s2)
        }),
{
    let n: int = p.rules.len() as int;
    let m: int = p.accepts.len() as int;
    let s2 = (2 * c) as u64;
    let rep = q.rules + free_edges(q.accepts.push(s2), q.start);
    let rc = cat_rules(p, q, c);
    let back = free_edges(q.accepts.push(s2), q.start);
    let out = free_edges(p.accepts, s2);
    assert forall|i: int| 0 <= i < n implies #[trigger] rc[n + i] == q.rules[i] by {
        assert(rc[n + i] == rep[i]);
    }
    assert forall|k: int| 0 <= k < m implies #[trigger] rc[2 * n + k] == free_rule(q.accepts[k], q.start) by {
        assert(rc[2 * n + k] == rep[n + k]);
        assert(rep[n + k] == back[k]);
        assert(q.accepts.push(s2)[k] == q.accepts[k]);
    }
    assert(rc[2 * n + m] == free_rule(s2, q.start)) by {
        assert(rc[2 * n + m] == rep[n + m]);
        assert(rep[n + m] == back[m]);
        assert(q.accepts.push(s2)[m] == s2);
    }
    assert forall|k: int| 0 <= k < m implies #[trigger] rc[2 * n + m + 1 + k] == free_rule(p.accepts[k], s2) by {
        assert(rc[2 * n + m + 1 + k] == out[k]);
    }
}

/// The one-or-more run is simulated by the run of `p` followed by the star
/// of its copy: each of its states below `c` stands in the other run, in
/// `p` or in the copy.
pub open spec fn sim_plus(p: DesignModel, c: nat, xp: Set<u64>, xc: Set<u64>) -> bool {
    &&& forall|x: u64| xp.contains(x) ==> x <= c
    &&& forall|x: u64| xp.contains(x) && x < c ==> xc.contains(x) || xc.contains((x + c) as u64)
    &&& xp.contains(c as u64) ==> xc.contains(p.start)
}

proof fn lemma_sim_plus_closure(p: DesignModel, q: DesignModel, c: nat, mp: Set<u64>, cl: Set<u64>)
    requires
        setting(p, q, c),
        sim_plus(p, c, mp, cl),
        closure(cat_rules(p, q, c), cl) == cl,
    ensures
        sim_plus(p, c, closure(plus_rules(p, c), mp), cl),
{
    let rp = plus_rules(p, c);
    let rc = cat_rules(p, q, c);
    let n: int = p.rules.len() as int;
    let m: int = p.accepts.len() as int;
    let s2 = (2 * c) as u64;
    lemma_plus_layout(p, c);
    lemma_cat_layout(p, q, c);
    lemma_closure_extensive(rc, cl);
    let t = Set::new(
        |x: u64|
            (x == c && cl.contains(p.start)) || (x < c && (cl.contains(x) || cl.contains((x + c) as u64))),
    );
    assert(mp.subset_of(t));
    assert(cl.contains(q.start) ==> t.contains(p.start)) by {
        assert(region(0, c).contains(p.start));
    }
    assert(is_closed(rp, t)) by {
        assert forall|i: int| 0 <= i < rp.len() && #[trigger] t.contains(rp[i].state) && rp[i].kind.fires(None)
            implies t.contains(rp[i].next_state) by {
            if i < n {
                let x = p.rules[i].state;
                let y = p.rules[i].next_state;
                assert(region(0, c).contains(x) && region(0, c).contains(y));
                if cl.contains(x) {
                    lemma_closure_step_closed(rc, cl, i);
                } else {
                    assert(rc[n + i] == q.rules[i]);
                    lemma_closure_step_closed(rc, cl, n + i);
                }
            } else if i < n + m {
                let k = i - n;
                let a = p.accepts[k];
                assert(p.accepts.contains(a));
                assert(region(0, c).contains(a));
                if cl.contains(a) {
                    lemma_closure_step_closed(rc, cl, 2 * n + m + 1 + k);
                    lemma_closure_step_closed(rc, cl, 2 * n + m);
                } else {
                    lemma_closure_step_closed(rc, cl, 2 * n + k);
                }
            } else {
                assert(region(0, c).contains(p.start));
            }
        }
    }
    lemma_closure_least(rp, mp, t);
}

/// A free rule from a state of a closed set leads into it.
proof fn lemma_closure_step_closed(rules: Seq<RuleModel>, states: Set<u64>, i: int)
    requires
        closure(rules, states) == states,
        0 <= i < rules.len(),
        states.contains(rules[i].state),
        rules[i].kind.fires(None),
    ensures
        states.contains(rules[i].next_state),
{
    crate::finite_automata::nfarulebook::lemma_closure_step(rules, states, i);
}

proof fn lemma_sim_plus_step(p: DesignModel, q: DesignModel, c: nat, xp: Set<u64>, xc: Set<u64>, ch: char)
    requires
        setting(p, q, c),
        sim_plus(p, c, xp, xc),
    ensures
        sim_plus(p, c, step(plus_rules(p, c), xp, Some(ch)), step(cat_rules(p, q, c), xc, Some(ch))),
        !step(plus_rules(p, c), xp, Some(ch)).contains(c as u64),
{
    let rp = plus_rules(p, c);
    let rc = cat_rules(p, q, c);
    let n: int = p.rules.len() as int;
    let m: int = p.accepts.len() as int;
    lemma_plus_layout(p, c);
    lemma_cat_layout(p, q, c);
    let sp = step(rp, xp, Some(ch));
    let sc = step(rc, xc, Some(ch));
    assert forall|y: u64| sp.contains(y) implies y < c && (sc.contains(y) || sc.contains((y + c) as u64)) by {
        let i = choose|i: int| 0 <= i < rp.len() && xp.contains(rp[i].state) && rp[i].kind.fires(Some(ch)) && rp[i].next_state == y;
        assert(i < n);
        let x = p.rules[i].state;
        assert(region(0, c).contains(x) && region(0, c).contains(y));
        if xc.contains(x) {
            assert(rc[i] == p.rules[i]);
        } else {
            assert(rc[n + i] == q.rules[i]);
            assert(sc.contains(rc[n + i].next_state));
        }
    }
}

/// Simulation is kept along any input.
proof fn lemma_sim_plus_run(p: DesignModel, q: DesignModel, c: nat, xp: Set<u64>, xc: Set<u64>, input: Seq<char>)
    requires
        setting(p, q, c),
        sim_plus(p, c, xp, xc),
        closure(cat_rules(p, q, c), xc) == xc,
    ensures
        sim_plus(p, c, run(plus_rules(p, c), xp, input), run(cat_rules(p, q, c), xc, input)),
        closure(cat_rules(p, q, c), run(cat_rules(p, q, c), xc, input)) == run(cat_rules(p, q, c), xc, input),
    decreases input.len(),
{
    if input.len() > 0 {
        let rp = plus_rules(p, c);
        let rc = cat_rules(p, q, c);
        let ch = input[0];
        lemma_sim_plus_step(p, q, c, xp, xc, ch);
        let sp = step(rp, xp, Some(ch));
        let sc = step(rc, xc, Some(ch));
        let cl = closure(rc, sc);
        lemma_closure_extensive(rc, sc);
        lemma_closure_idempotent(rc, sc);
        assert(sim_plus(p, c, sp, cl));
        lemma_sim_plus_closure(p, q, c, sp, cl);
        lemma_sim_plus_run(p, q, c, closure(rp, sp), cl, input.drop_first());
    }
}

/// Whatever the one-or-more automaton on `p` accepts, `p` followed by the
/// star of its copy accepts too.
pub proof fn lemma_plus_into_cat(p: DesignModel, q: DesignModel, c: nat, input: Seq<char>)
    requires
        setting(p, q, c),
        meets(run(plus_rules(p, c), closure(plus_rules(p, c), set![c as u64]), input), p.accepts.to_set()),
    ensures
        meets(
            run(cat_rules(p, q, c), closure(cat_rules(p, q, c), set![p.start]), input),
            q.accepts.push((2 * c) as u64).to_set(),
        ),
{
    let rp = plus_rules(p, c);
    let rc = cat_rules(p, q, c);
    let n: int = p.rules.len() as int;
    let m: int = p.accepts.len() as int;
    let s2 = (2 * c) as u64;
    lemma_cat_layout(p, q, c);
    let cl = closure(rc, set![p.start]);
    lemma_closure_idempotent(rc, set![p.start]);
    lemma_start_in_closure(rc, p.start);
    assert(sim_plus(p, c, set![c as u64], cl));
    lemma_sim_plus_closure(p, q, c, set![c as u64], cl);
    lemma_sim_plus_run(p, q, c, closure(rp, set![c as u64]), cl, input);
    let yp = run(rp, closure(rp, set![c as u64]), input);
    let yc = run(rc, cl, input);
    let acc = q.accepts.push(s2);
    let a = choose|a: u64| yp.contains(a) && p.accepts.to_set().contains(a);
    let k = choose|k: int| 0 <= k < m && p.accepts[k] == a;
    assert(region(0, c).contains(a)) by {
        assert(p.accepts.contains(a));
    }
    if yc.contains(a) {
        lemma_closure_step_closed(rc, yc, 2 * n + m + 1 + k);
        assert(acc[m] == s2);
        assert(acc.to_set().contains(s2));
    } else {
        assert(acc[k] == q.accepts[k]);
        assert(acc.to_set().contains((a + c) as u64));
    }
}

/// The run of `p` followed by the star of its copy is simulated by the
/// one-or-more run: a state of `p` or of the copy stands there as the
/// matching state of `p`, and the star's start only when an accepting state
/// of `p` was reached.
pub open spec fn sim_cat(p: DesignModel, c: nat, xc: Set<u64>, xp: Set<u64>) -> bool {
    &&& forall|x: u64| xc.contains(x) ==> x <= 2 * c
    &&& forall|x: u64| xc.contains(x) && x < c ==> xp.contains(x)
    &&& forall|x: u64| xc.contains(x) && c <= x < 2 * c ==> xp.contains((x - c) as u64)
    &&& xc.contains((2 * c) as u64) ==> meets(xp, p.accepts.to_set())
}

proof fn lemma_sim_cat_closure(p: DesignModel, q: DesignModel, c: nat, mc: Set<u64>, cl: Set<u64>)
    requires
        setting(p, q, c),
        sim_cat(p, c, mc, cl),
        closure(plus_rules(p, c), cl) == cl,
    ensures
        sim_cat(p, c, closure(cat_rules(p, q, c), mc), cl),
{
    let rp = plus_rules(p, c);
    let rc = cat_rules(p, q, c);
    let n: int = p.rules.len() as int;
    let m: int = p.accepts.len() as int;
    let s2 = (2 * c) as u64;
    lemma_plus_layout(p, c);
    lemma_cat_layout(p, q, c);
    let t = Set::new(
        |x: u64|
            (x < c && cl.contains(x)) || (c <= x < 2 * c && cl.contains((x - c) as u64)) || (x == 2 * c
                && meets(cl, p.accepts.to_set())),
    );
    assert(mc.subset_of(t));
    // Once an accepting state of `p` is reached, so is the start of `p`.
    assert(meets(cl, p.accepts.to_set()) ==> cl.contains(p.start)) by {
        if meets(cl, p.accepts.to_set()) {
            let a = choose|a: u64| cl.contains(a) && p.accepts.to_set().contains(a);
            let k = choose|k: int| 0 <= k < m && p.accepts[k] == a;
            lemma_closure_step_closed(rp, cl, n + k);
        }
    }
    assert(region(0, c).contains(p.start));
    assert(is_closed(rc, t)) by {
        assert forall|i: int| 0 <= i < rc.len() && #[trigger] t.contains(rc[i].state) && rc[i].kind.fires(None)
            implies t.contains(rc[i].next_state) by {
            if i < n {
                assert(region(0, c).contains(p.rules[i].state) && region(0, c).contains(p.rules[i].next_state));
                lemma_closure_step_closed(rp, cl, i);
            } else if i < 2 * n {
                let j = i - n;
                assert(rc[i] == q.rules[j]);
                assert(region(0, c).contains(p.rules[j].state) && region(0, c).contains(p.rules[j].next_state));
                assert(rp[j] == p.rules[j]);
                lemma_closure_step_closed(rp, cl, j);
            } else if i < 2 * n + m {
                let k = i - 2 * n;
                let a = p.accepts[k];
                assert(p.accepts.contains(a));
                assert(region(0, c).contains(a));
                assert(rc[i].state == (a + c) as u64);
                assert(p.accepts.to_set().contains(a));
            } else if i == 2 * n + m {
            } else {
                let k = i - (2 * n + m + 1);
                let a = p.accepts[k];
                assert(p.accepts.contains(a));
                assert(region(0, c).contains(a));
                assert(p.accepts.to_set().contains(a));
            }
        }
    }
    lemma_closure_least(rc, mc, t);
}

proof fn lemma_sim_cat_step(p: DesignModel, q: DesignModel, c: nat, xc: Set<u64>, xp: Set<u64>, ch: char)
    requires
        setting(p, q, c),
        sim_cat(p, c, xc, xp),
    ensures
        sim_cat(p, c, step(cat_rules(p, q, c), xc, Some(ch)), step(plus_rules(p, c), xp, Some(ch))),
{
    let rp = plus_rules(p, c);
    let rc = cat_rules(p, q, c);
    let n: int = p.rules.len() as int;
    let m: int = p.accepts.len() as int;
    lemma_plus_layout(p, c);
    lemma_cat_layout(p, q, c);
    let sp = step(rp, xp, Some(ch));
    let sc = step(rc, xc, Some(ch));
    assert forall|y: u64| sc.contains(y) implies (y < c && sp.contains(y)) || (c <= y < 2 * c && sp.contains(
        (y - c) as u64,
    )) by {
        let i = choose|i: int| 0 <= i < rc.len() && xc.contains(rc[i].state) && rc[i].kind.fires(Some(ch)) && rc[i].next_state == y;
        assert(i < 2 * n);
        if i < n {
            assert(region(0, c).contains(p.rules[i].state) && region(0, c).contains(p.rules[i].next_state));
            assert(rp[i] == p.rules[i]);
        } else {
            let j = i - n;
            assert(rc[i] == q.rules[j]);
            assert(region(0, c).contains(p.rules[j].state) && region(0, c).contains(p.rules[j].next_state));
            assert(rp[j] == p.rules[j]);
            assert(sp.contains(rp[j].next_state));
        }
    }
}

proof fn lemma_sim_cat_run(p: DesignModel, q: DesignModel, c: nat, xc: Set<u64>, xp: Set<u64>, input: Seq<char>)
    requires
        setting(p, q, c),
        sim_cat(p, c, xc, xp),
        closure(plus_rules(p, c), xp) == xp,
    ensures
        sim_cat(p, c, run(cat_rules(p, q, c), xc, input), run(plus_rules(p, c), xp, input)),
    decreases input.len(),
{
    if input.len() > 0 {
        let rp = plus_rules(p, c);
        let rc = cat_rules(p, q, c);
        let ch = input[0];
        lemma_sim_cat_step(p, q, c, xc, xp, ch);
        let sp = step(rp, xp, Some(ch));
        let sc = step(rc, xc, Some(ch));
        let cl = closure(rp, sp);
        lemma_closure_extensive(rp, sp);
        lemma_closure_idempotent(rp, sp);
        assert(sim_cat(p, c, sc, cl)) by {
            if sc.contains((2 * c) as u64) {
                let a = choose|a: u64| sp.contains(a) && p.accepts.to_set().contains(a);
                assert(cl.contains(a));
            }
        }
        lemma_sim_cat_closure(p, q, c, sc, cl);
        lemma_sim_cat_run(p, q, c, closure(rc, sc), cl, input.drop_first());
    }
}

/// Whatever `p` followed by the star of its copy accepts, the one-or-more
/// automaton on `p` accepts too.
pub proof fn lemma_cat_into_plus(p: DesignModel, q: DesignModel, c: nat, input: Seq<char>)
    requires
        setting(p, q, c),
        meets(
            run(cat_rules(p, q, c), closure(cat_rules(p, q, c), set![p.start]), input),
            q.accepts.push((2 * c) as u64).to_set(),
        ),
    ensures
        meets(run(plus_rules(p, c), closure(plus_rules(p, c), set![c as u64]), input), p.accepts.to_set()),
{
    let rp = plus_rules(p, c);
    let rc = cat_rules(p, q, c);
    let n: int = p.rules.len() as int;
    let m: int = p.accepts.len() as int;
    let s2 = (2 * c) as u64;
    lemma_plus_layout(p, c);
    let cl = closure(rp, set![c as u64]);
    lemma_closure_idempotent(rp, set![c as u64]);
    lemma_start_in_closure(rp, c as u64);
    lemma_closure_step_closed(rp, cl, n + m);
    assert(region(0, c).contains(p.start));
    assert(sim_cat(p, c, set![p.start], cl));
    lemma_sim_cat_closure(p, q, c, set![p.start], cl);
    lemma_sim_cat_run(p, q, c, closure(rc, set![p.start]), cl, input);
    let yc = run(rc, closure(rc, set![p.start]), input);
    let yp = run(rp, cl, input);
    let acc = q.accepts.push(s2);
    let x = choose|x: u64| yc.contains(x) && acc.to_set().contains(x);
    let k = choose|k: int| 0 <= k < acc.len() && acc[k] == x;
    if k < m {
        assert(acc[k] == q.accepts[k]);
        let a = p.accepts[k];
        assert(p.accepts.contains(a));
        assert(region(0, c).contains(a));
        assert(yp.contains(a));
        assert(p.accepts.to_set().contains(a));
    }
}

/// One or more repetitions match exactly what the expression followed by
/// its star matches.
pub proof fn law_plus_is_concat_with_repeat(p: Box<Regex>, input: Seq<char>)
    requires
        fits(Regex::Concatenate(p, Box::new(Regex::Repeat(p)))),
    ensures
        regex_matches(Regex::Plus(p), input) == regex_matches(
            Regex::Concatenate(p, Box::new(Regex::Repeat(p))),
            input,
        ),
{
    let c = state_count(*p);
    let pd = compile(*p, 0);
    let qd = compile(*p, c);
    let g = |x: u64| if x < c { (x + c) as u64 } else { x };
    assert(*Box::new(Regex::Repeat(p)) == Regex::Repeat(p));
    assert(state_count(Regex::Repeat(p)) == c + 1);
    assert(state_count(Regex::Concatenate(p, Box::new(Regex::Repeat(p)))) == c + c + 1);
    lemma_compile_shift(*p, 0, c, g);
    lemma_compile_region(*p, 0);
    assert(shifted(pd, qd, c)) by {
        assert(region(0, c).contains(pd.start));
        assert forall|k: int| 0 <= k < pd.accepts.len() implies #[trigger] qd.accepts[k] == (pd.accepts[k] + c) as u64 by {
            assert(pd.accepts.contains(pd.accepts[k]));
        }
        assert forall|i: int| 0 <= i < pd.rules.len() implies #[trigger] qd.rules[i] == (RuleModel {
            state: (pd.rules[i].state + c) as u64,
            kind: pd.rules[i].kind,
            next_state: (pd.rules[i].next_state + c) as u64,
        }) by {
            assert(region(0, c).contains(pd.rules[i].state));
        }
    }
    let dp = compile(Regex::Plus(p), 0);
    let dc = compile(Regex::Concatenate(p, Box::new(Regex::Repeat(p))), 0);
    assert(dp.rules == plus_rules(pd, c));
    let s2 = (2 * c) as u64;
    let rep = compile(Regex::Repeat(p), c);
    assert(rep.start == s2);
    assert(rep.accepts == qd.accepts.push(s2));
    assert(rep.rules == qd.rules + free_edges(qd.accepts.push(s2), qd.start));
    assert(dc.rules == pd.rules + rep.rules + free_edges(pd.accepts, rep.start));
    assert(dc.rules == cat_rules(pd, qd, c));
    assert(dc.accepts == qd.accepts.push((2 * c) as u64));
    if regex_matches(Regex::Plus(p), input) {
        lemma_plus_into_cat(pd, qd, c, input);
    }
    if regex_matches(Regex::Concatenate(p, Box::new(Regex::Repeat(p))), input) {
        lemma_cat_into_plus(pd, qd, c, input);
    }
}

} // verus!
