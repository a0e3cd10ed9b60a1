use vstd::prelude::*;

use crate::model::{obj_after, Cols, Constr, ConstrType, ConstrView, Model, ModelError, ModelView};
use crate::problem::Problem;
use crate::sweep::{covering, covers, lemma_covering_members, start_keys, sweep};
use vstd::arithmetic::div_mod::lemma_fundamental_div_mod_converse;

use crate::text::{label, lemma_label_valid, lemma_powers, make_label};

verus! {

pub open spec fn n_nodes(p: &Problem) -> nat {
    p.nodes.costs@.len()
}

pub open spec fn n_edges(p: &Problem) -> nat {
    p.edges.nodes@.len()
}

/// Number of strategies of node `i`.
pub open spec fn n_strats(p: &Problem, i: int) -> nat {
    p.nodes.costs@[i]@.len()
}

/// Index of the variable of the first strategy of node `i`: strategies of earlier nodes come
/// first.
pub open spec fn strat_base(p: &Problem, i: nat) -> nat
    decreases i,
{
    if i == 0 {
        0
    } else {
        strat_base(p, (i - 1) as nat) + n_strats(p, i - 1)
    }
}

/// Number of strategy variables, `Σ |strategies(node)|`.
pub open spec fn n_strat_vars(p: &Problem) -> nat {
    strat_base(p, n_nodes(p))
}

pub open spec fn edge_v(p: &Problem, e: int) -> int {
    p.edges.nodes@[e]@[0] as int
}

pub open spec fn edge_u(p: &Problem, e: int) -> int {
    p.edges.nodes@[e]@[1] as int
}

/// Number of strategy pairs of edge `e`.
pub open spec fn n_pairs(p: &Problem, e: int) -> nat {
    n_strats(p, edge_v(p, e)) * n_strats(p, edge_u(p, e))
}

/// Number of strategy pairs of the edges before `e`.
pub open spec fn pair_base(p: &Problem, e: nat) -> nat
    decreases e,
{
    if e == 0 {
        0
    } else {
        pair_base(p, (e - 1) as nat) + n_pairs(p, e - 1)
    }
}

/// Number of edge variables, `Σ |strategies(v)| × |strategies(u)|`.
pub open spec fn n_edge_vars(p: &Problem) -> nat {
    pair_base(p, n_edges(p))
}

/// The per-node and per-edge lists agree in length, edges name existing nodes, and each edge
/// has one cost per strategy pair.
pub open spec fn consistent(p: &Problem) -> bool {
    &&& p.nodes.intervals@.len() == n_nodes(p)
    &&& p.nodes.usages@.len() == n_nodes(p)
    &&& forall|i: int| 0 <= i < n_nodes(p) ==> (#[trigger] p.nodes.usages@[i])@.len() == n_strats(p, i)
    &&& p.edges.costs@.len() == n_edges(p)
    &&& forall|e: int| 0 <= e < n_edges(p) ==> #[trigger] edge_ok(p, e)
}

/// Edge `e` names existing nodes and has one cost per strategy pair.
pub open spec fn edge_ok(p: &Problem, e: int) -> bool {
    &&& 0 <= edge_v(p, e) < n_nodes(p)
    &&& 0 <= edge_u(p, e) < n_nodes(p)
    &&& p.edges.costs@[e]@.len() == n_pairs(p, e)
}

/// Every value of `rows` fits in an `i64`.
pub open spec fn rows_fit(rows: Seq<Vec<u64>>) -> bool {
    forall|i: int, j: int|
        0 <= i < rows.len() && 0 <= j < rows[i]@.len() ==> #[trigger] rows[i]@[j] <= i64::MAX
}

/// Every cost, usage and the limit fit in an `i64` coefficient.
pub open spec fn coeffs_fit(p: &Problem) -> bool {
    &&& p.usage_limit <= i64::MAX
    &&& rows_fit(p.nodes.costs@)
    &&& rows_fit(p.nodes.usages@)
    &&& rows_fit(p.edges.costs@)
}

/// The distinct interval starts that some interval contains, in increasing order: one
/// resource constraint each.
pub open spec fn active_starts(p: &Problem) -> Seq<u64> {
    start_keys(p.nodes.intervals@).filter(|t: u64| covering(p.nodes.intervals@, t).len() > 0)
}

/// Every generated name is valid (eight characters, no control character): the counters of strategy and edge variables
/// stay below 10^7 in decimal, node indices and connectivity counters below 16^7 in
/// hexadecimal, and active starts below 10^7.
pub open spec fn names_fit(p: &Problem) -> bool {
    &&& n_strat_vars(p) < 10_000_000
    &&& n_nodes(p) <= 0x1000_0000
    &&& n_edge_vars(p) < 10_000_000
    &&& forall|k: int|
        0 <= k < start_keys(p.nodes.intervals@).len() && covering(
            p.nodes.intervals@,
            #[trigger] start_keys(p.nodes.intervals@)[k],
        ).len() > 0 ==> start_keys(p.nodes.intervals@)[k] < 10_000_000
}

/// The assignment constraint of node `i`: its strategy variables sum to one.
pub open spec fn assign_constr(p: &Problem, i: int) -> ConstrView {
    ConstrView {
        name: label("U"@, i as nat, true),
        desc: None,
        cols: Seq::new(n_strats(p, i), |j: int| (1i64, (strat_base(p, i as nat) + j) as usize)),
        typ: ConstrType::Equal,
        rhs: 1,
    }
}

pub open spec fn assign_constrs(p: &Problem) -> Seq<ConstrView> {
    Seq::new(n_nodes(p), |i: int| assign_constr(p, i))
}

/// The usage entries of the strategies of node `c`.
pub open spec fn node_usage_cols(p: &Problem, c: int) -> Seq<(i64, usize)> {
    Seq::new(
        n_strats(p, c),
        |j: int| (p.nodes.usages@[c]@[j] as i64, (strat_base(p, c as nat) + j) as usize),
    )
}

/// The usage entries of the strategies of `nodes`, node by node.
pub open spec fn usage_cols(p: &Problem, nodes: Seq<usize>) -> Seq<(i64, usize)>
    decreases nodes.len(),
{
    if nodes.len() == 0 {
        Seq::empty()
    } else {
        usage_cols(p, nodes.drop_last()) + node_usage_cols(p, nodes.last() as int)
    }
}

/// The resource constraint at start `t`: usage of every strategy of every node active at `t`
/// is at most the limit.
pub open spec fn usage_constr(p: &Problem, t: u64) -> ConstrView {
    ConstrView {
        name: label("I"@, t as nat, false),
        desc: None,
        cols: usage_cols(p, covering(p.nodes.intervals@, t)),
        typ: ConstrType::LessEqual,
        rhs: p.usage_limit as i64,
    }
}

pub open spec fn usage_constrs(p: &Problem) -> Seq<ConstrView> {
    active_starts(p).map_values(|t: u64| usage_constr(p, t))
}

/// Index of the variable of strategy pair `(a, b)` of edge `e`, counted among edge pairs.
pub open spec fn pair_index(p: &Problem, e: int, a: int, b: int) -> nat {
    (pair_base(p, e as nat) + a * n_strats(p, edge_u(p, e)) + b) as nat
}

/// One connectivity constraint of pair `(a, b)` of edge `e`: the edge variable is at least the
/// v-strategy variable (`side` 0) or the u-strategy variable (`side` 1).
pub open spec fn link_constr(p: &Problem, e: int, a: int, b: int, side: int) -> ConstrView {
    let k = pair_index(p, e, a, b);
    let strat = if side == 0 {
        strat_base(p, edge_v(p, e) as nat) + a
    } else {
        strat_base(p, edge_u(p, e) as nat) + b
    };
    ConstrView {
        name: label("C"@, (2 * k + side + 1) as nat, true),
        desc: None,
        cols: seq![(1i64, (n_strat_vars(p) + k) as usize), (-1i64, strat as usize)],
        typ: ConstrType::GreaterEqual,
        rhs: 0,
    }
}

/// The connectivity constraints of edge `e`, two per pair, pairs in row-major order.
pub open spec fn edge_links(p: &Problem, e: int) -> Seq<ConstrView> {
    let su = n_strats(p, edge_u(p, e)) as int;
    Seq::new(2 * n_pairs(p, e), |q: int| link_constr(p, e, (q / 2) / su, (q / 2) % su, q % 2))
}

pub open spec fn links_upto(p: &Problem, e: nat) -> Seq<ConstrView>
    decreases e,
{
    if e == 0 {
        Seq::empty()
    } else {
        links_upto(p, (e - 1) as nat) + edge_links(p, e - 1)
    }
}

pub open spec fn link_constrs(p: &Problem) -> Seq<ConstrView> {
    links_upto(p, n_edges(p))
}

/// All constraints in order: assignment, resource, connectivity.
pub open spec fn model_constrs(p: &Problem) -> Seq<ConstrView> {
    assign_constrs(p) + usage_constrs(p) + link_constrs(p)
}

/// Name of variable `v`: strategy variables `S0000001`, ..., then edge variables `E0000001`, ...
pub open spec fn var_name(p: &Problem, v: int) -> Seq<char> {
    if v < n_strat_vars(p) {
        label("S"@, (v + 1) as nat, false)
    } else {
        label("E"@, (v - n_strat_vars(p) + 1) as nat, false)
    }
}

pub open spec fn node_obj(p: &Problem, i: nat) -> Seq<(i64, usize)>
    decreases i,
{
    if i == 0 {
        Seq::empty()
    } else {
        node_obj(p, (i - 1) as nat) + Seq::new(
            n_strats(p, i - 1),
            |j: int|
                (p.nodes.costs@[i - 1]@[j] as i64, (strat_base(p, (i - 1) as nat) + j) as usize),
        )
    }
}

pub open spec fn edge_obj(p: &Problem, e: nat) -> Seq<(i64, usize)>
    decreases e,
{
    if e == 0 {
        Seq::empty()
    } else {
        edge_obj(p, (e - 1) as nat) + Seq::new(
            n_pairs(p, e - 1),
            |q: int|
                (
                    p.edges.costs@[e - 1]@[q] as i64,
                    (n_strat_vars(p) + pair_base(p, (e - 1) as nat) + q) as usize,
                ),
        )
    }
}

/// The objective row: each strategy's cost, then each strategy pair's cost.
pub open spec fn model_obj(p: &Problem) -> Seq<(i64, usize)> {
    node_obj(p, n_nodes(p)) + edge_obj(p, n_edges(p))
}

proof fn lemma_strat_base_mono(p: &Problem, i: nat, k: nat)
    requires
        i <= k,
    ensures
        strat_base(p, i) <= strat_base(p, k),
    decreases k,
{
    if i < k {
        lemma_strat_base_mono(p, i, (k - 1) as nat);
    }
}

proof fn lemma_pair_base_mono(p: &Problem, e: nat, f: nat)
    requires
        e <= f,
    ensures
        pair_base(p, e) <= pair_base(p, f),
    decreases f,
{
    if e < f {
        lemma_pair_base_mono(p, e, (f - 1) as nat);
    }
}

fn check_consistent(p: &Problem) -> (r: bool)
    ensures
        r == consistent(p),
{
    let n = p.nodes.costs.len();
    if p.nodes.intervals.len() != n || p.nodes.usages.len() != n || p.edges.costs.len()
        != p.edges.nodes.len() {
        return false;
    }
    let mut i: usize = 0;
    while i < n
        invariant
            n == n_nodes(p),
            p.nodes.usages@.len() == n,
            p.nodes.intervals@.len() == n,
            p.edges.costs@.len() == p.edges.nodes@.len(),
            i <= n,
            forall|k: int| 0 <= k < i ==> (#[trigger] p.nodes.usages@[k])@.len() == n_strats(p, k),
        decreases n - i,
    {
        if p.nodes.usages[i].len() != p.nodes.costs[i].len() {
            assert(p.nodes.usages@[i as int]@.len() != n_strats(p, i as int));
            return false;
        }
        i += 1;
    }
    let m = p.edges.nodes.len();
    let mut e: usize = 0;
    while e < m
        invariant
            n == n_nodes(p),
            m == n_edges(p),
            p.edges.costs@.len() == m,
            p.nodes.usages@.len() == n,
            p.nodes.intervals@.len() == n,
            forall|k: int| 0 <= k < n ==> (#[trigger] p.nodes.usages@[k])@.len() == n_strats(p, k),
            e <= m,
            forall|f: int| 0 <= f < e ==> #[trigger] edge_ok(p, f),
        decreases m - e,
    {
        let v = p.edges.nodes[e][0];
        let u = p.edges.nodes[e][1];
        let ghost c = p.edges.costs@[e as int];
        assert(v == edge_v(p, e as int) && u == edge_u(p, e as int));
        if v >= n || u >= n {
            assert(!edge_ok(p, e as int));
            return false;
        }
        let sv = p.nodes.costs[v].len() as u128;
        let su = p.nodes.costs[u].len() as u128;
        assert(sv * su == n_pairs(p, e as int)) by (nonlinear_arith)
            requires
                sv == n_strats(p, edge_v(p, e as int)),
                su == n_strats(p, edge_u(p, e as int)),
                sv <= usize::MAX,
                su <= usize::MAX,
        ;
        assert(sv * su <= u128::MAX) by (nonlinear_arith)
            requires
                sv <= 0xffff_ffff_ffff_ffff,
                su <= 0xffff_ffff_ffff_ffff,
        ;
        if p.edges.costs[e].len() as u128 != sv * su {
            assert(!edge_ok(p, e as int));
            return false;
        }
        assert(c@.len() == n_pairs(p, e as int));
        assert(0 <= edge_v(p, e as int) < n_nodes(p));
        assert(0 <= edge_u(p, e as int) < n_nodes(p));
        e += 1;
    }
    true
}

fn check_rows_fit(rows: &Vec<Vec<u64>>) -> (r: bool)
    ensures
        r == rows_fit(rows@),
{
    let max = i64::MAX as u64;
    let mut i: usize = 0;
    while i < rows.len()
        invariant
            i <= rows@.len(),
            max == i64::MAX,
            forall|a: int, b: int|
                0 <= a < i && 0 <= b < rows@[a]@.len() ==> #[trigger] rows@[a]@[b] <= i64::MAX,
        decreases rows@.len() - i,
    {
        let row = &rows[i];
        let mut j: usize = 0;
        while j < row.len()
            invariant
                i < rows@.len(),
                row == rows@[i as int],
                j <= row@.len(),
                max == i64::MAX,
                forall|a: int, b: int|
                    0 <= a < i && 0 <= b < rows@[a]@.len() ==> #[trigger] rows@[a]@[b] <= i64::MAX,
                forall|b: int| 0 <= b < j ==> #[trigger] rows@[i as int]@[b] <= i64::MAX,
            decreases row@.len() - j,
        {
            if row[j] > max {
                return false;
            }
            j += 1;
        }
        i += 1;
    }
    true
}

fn check_coeffs(p: &Problem) -> (r: bool)
    ensures
        r == coeffs_fit(p),
{
    p.usage_limit <= i64::MAX as u64 && check_rows_fit(&p.nodes.costs) && check_rows_fit(
        &p.nodes.usages,
    ) && check_rows_fit(&p.edges.costs)
}

/// Registers one variable per strategy of each node and each node's assignment constraint,
/// and appends each strategy's cost to the objective row. Returns each node's first variable.
fn add_nodes(p: &Problem, model: &mut Model, obj: &mut Cols) -> (r: Result<Vec<usize>, ModelError>)
    requires
        consistent(p),
        coeffs_fit(p),
        names_fit(p),
        old(model)@.wf(),
        old(model)@.vars.len() == 0,
        old(model)@.constrs.len() == 0,
        old(obj)@.len() == 0,
    ensures
        r is Ok,
        final(model)@.wf(),
        final(model)@.name == old(model)@.name,
        final(model)@.constrs == assign_constrs(p),
        final(model)@.vars.len() == n_strat_vars(p),
        forall|v: int|
            0 <= v < n_strat_vars(p) ==> (#[trigger] final(model)@.vars[v]).name == var_name(p, v)
                && final(model)@.vars[v].desc is None && final(model)@.vars[v].obj is None,
        final(obj)@ == node_obj(p, n_nodes(p)),
        r matches Ok(first) ==> first@ == Seq::new(
            n_nodes(p),
            |i: int| strat_base(p, i as nat) as usize,
        ),
{
    proof {
        lemma_powers();
        reveal_strlit("S");
        reveal_strlit("U");
        lemma_strat_base_mono(p, 0, n_nodes(p));
    }
    let n = p.nodes.costs.len();
    let mut first_var: Vec<usize> = Vec::new();
    let mut count: usize = 0;
    let mut i: usize = 0;
    while i < n
        invariant
            consistent(p),
            coeffs_fit(p),
            names_fit(p),
            n == n_nodes(p),
            i <= n,
            count == strat_base(p, i as nat),
            count <= n_strat_vars(p),
            model@.wf(),
            model@.name == old(model)@.name,
            model@.constrs == assign_constrs(p).take(i as int),
            model@.vars.len() == count,
            forall|v: int|
                0 <= v < count ==> (#[trigger] model@.vars[v]).name == var_name(p, v)
                    && model@.vars[v].desc is None && model@.vars[v].obj is None,
            obj@ == node_obj(p, i as nat),
            first_var@ == Seq::new(i as nat, |k: int| strat_base(p, k as nat) as usize),
        decreases n - i,
    {
        proof {
            lemma_strat_base_mono(p, (i + 1) as nat, n as nat);
        }
        let costs = &p.nodes.costs[i];
        let s = costs.len();
        let mut cols = Cols::new();
        let mut j: usize = 0;
        while j < s
            invariant
                consistent(p),
                coeffs_fit(p),
                n == n_nodes(p),
                i < n,
                costs == p.nodes.costs@[i as int],
                s == n_strats(p, i as int),
                j <= s,
                count == strat_base(p, i as nat),
                count + s <= n_strat_vars(p),
                n_strat_vars(p) < 10_000_000,
                model@.wf(),
                model@.name == old(model)@.name,
                model@.constrs == assign_constrs(p).take(i as int),
                model@.vars.len() == count + j,
                forall|v: int|
                    0 <= v < count + j ==> (#[trigger] model@.vars[v]).name == var_name(p, v)
                        && model@.vars[v].desc is None && model@.vars[v].obj is None,
                cols@ == Seq::new(j as nat, |k: int| (1i64, (count + k) as usize)),
                obj@ == node_obj(p, i as nat) + Seq::new(
                    j as nat,
                    |k: int| (costs@[k] as i64, (count + k) as usize),
                ),
            decreases s - j,
        {
            proof {
                reveal_strlit("S");
                lemma_powers();
                lemma_label_valid("S"@, (count + j + 1) as nat, false);
            }
            let name = make_label("S", (count + j + 1) as u64, false);
            let var_index = match model.add_var(name, None) {
                Ok(x) => x,
                Err(e) => return Err(e),
            };
            assert(costs@[j as int] == p.nodes.costs@[i as int]@[j as int]);
            obj.push(costs[j] as i64, var_index);
            cols.push(1, var_index);
            proof {
                assert(cols@ =~= Seq::new((j + 1) as nat, |k: int| (1i64, (count + k) as usize)));
                assert(obj@ =~= node_obj(p, i as nat) + Seq::new(
                    (j + 1) as nat,
                    |k: int| (costs@[k] as i64, (count + k) as usize),
                ));
            }
            j += 1;
        }
        proof {
            reveal_strlit("U");
            lemma_powers();
            lemma_label_valid("U"@, i as nat, true);
        }
        let constr = Constr {
            name: make_label("U", i as u64, true),
            desc: None,
            cols,
            typ: ConstrType::Equal,
            rhs: 1,
        };
        assert(constr@ == assign_constr(p, i as int)) by {
            assert(constr.cols@ =~= assign_constr(p, i as int).cols);
        }
        match model.add_constr(constr) {
            Ok(()) => {},
            Err(e) => return Err(e),
        }
        first_var.push(count);
        proof {
            assert(model@.constrs =~= assign_constrs(p).take(i + 1));
            assert(first_var@ =~= Seq::new((i + 1) as nat, |k: int| strat_base(p, k as nat) as usize));
            assert(obj@ =~= node_obj(p, (i + 1) as nat));
        }
        count = count + s;
        i += 1;
    }
    assert(model@.constrs =~= assign_constrs(p));
    Ok(first_var)
}

/// Adds one resource constraint per interval start that some interval contains.
fn add_usages(
    p: &Problem,
    model: &mut Model,
    first_var: &Vec<usize>,
    keys: &Vec<u64>,
    buckets: &Vec<Vec<usize>>,
) -> (r: Result<(), ModelError>)
    requires
        consistent(p),
        coeffs_fit(p),
        names_fit(p),
        old(model)@.wf(),
        old(model)@.constrs == assign_constrs(p),
        old(model)@.vars.len() == n_strat_vars(p),
        first_var@ == Seq::new(n_nodes(p), |i: int| strat_base(p, i as nat) as usize),
        keys@ == start_keys(p.nodes.intervals@),
        buckets@.len() == keys@.len(),
        forall|k: int|
            0 <= k < buckets@.len() ==> (#[trigger] buckets@[k])@ == covering(
                p.nodes.intervals@,
                keys@[k],
            ),
    ensures
        r is Ok,
        final(model)@.wf(),
        final(model)@.name == old(model)@.name,
        final(model)@.constrs == assign_constrs(p) + usage_constrs(p),
        final(model)@.vars.len() == old(model)@.vars.len(),
        forall|v: int|
            0 <= v < old(model)@.vars.len() ==> (#[trigger] final(model)@.vars[v]).name == old(
                model,
            )@.vars[v].name && final(model)@.vars[v].desc == old(model)@.vars[v].desc
                && final(model)@.vars[v].obj == old(model)@.vars[v].obj,
{
    let ghost ivs = p.nodes.intervals@;
    let ghost pred = |t: u64| covering(ivs, t).len() > 0;
    let ghost f = |t: u64| usage_constr(p, t);
    let m = keys.len();
    let mut k: usize = 0;
    while k < m
        invariant
            consistent(p),
            coeffs_fit(p),
            names_fit(p),
            ivs == p.nodes.intervals@,
            pred == (|t: u64| covering(ivs, t).len() > 0),
            f == (|t: u64| usage_constr(p, t)),
            first_var@ == Seq::new(n_nodes(p), |i: int| strat_base(p, i as nat) as usize),
            keys@ == start_keys(ivs),
            m == keys@.len(),
            buckets@.len() == m,
            forall|b: int| 0 <= b < m ==> (#[trigger] buckets@[b])@ == covering(ivs, keys@[b]),
            k <= m,
            model@.wf(),
            model@.name == old(model)@.name,
            model@.constrs == assign_constrs(p) + keys@.take(k as int).filter(pred).map_values(f),
            model@.vars.len() == old(model)@.vars.len(),
            old(model)@.vars.len() == n_strat_vars(p),
            forall|v: int|
                0 <= v < old(model)@.vars.len() ==> (#[trigger] model@.vars[v]).name == old(
                    model,
                )@.vars[v].name && model@.vars[v].desc == old(model)@.vars[v].desc
                    && model@.vars[v].obj == old(model)@.vars[v].obj,
        decreases m - k,
    {
        let t = keys[k];
        let nodes = &buckets[k];
        proof {
            assert(keys@.take(k + 1) =~= keys@.take(k as int).push(t));
            keys@.take(k as int).lemma_filter_push(t, pred);
            lemma_covering_members(ivs, t, ivs.len());
        }
        if nodes.len() > 0 {
            let mut cols = Cols::new();
            let mut x: usize = 0;
            while x < nodes.len()
                invariant
                    consistent(p),
                    coeffs_fit(p),
                    ivs == p.nodes.intervals@,
                    first_var@ == Seq::new(n_nodes(p), |i: int| strat_base(p, i as nat) as usize),
                    n_strat_vars(p) < 10_000_000,
                    nodes@ == covering(ivs, t),
                    forall|c: usize| #[trigger]
                        covering(ivs, t).contains(c) ==> (c < ivs.len() && covers(
                            ivs[c as int],
                            t,
                        )),
                    x <= nodes@.len(),
                    cols@ == usage_cols(p, nodes@.take(x as int)),
                    forall|q: int| 0 <= q < cols@.len() ==> (#[trigger] cols@[q]).1 < n_strat_vars(p),
                decreases nodes@.len() - x,
            {
                let c = nodes[x];
                assert(nodes@.contains(c));
                proof {
                    lemma_strat_base_mono(p, (c + 1) as nat, n_nodes(p));
                }
                let base = first_var[c];
                let us = &p.nodes.usages[c];
                let ghost before = cols@;
                let mut j: usize = 0;
                while j < us.len()
                    invariant
                        consistent(p),
                        coeffs_fit(p),
                        c < n_nodes(p),
                        us == p.nodes.usages@[c as int],
                        us@.len() == n_strats(p, c as int),
                        base == strat_base(p, c as nat),
                        base + n_strats(p, c as int) <= n_strat_vars(p),
                        n_strat_vars(p) < 10_000_000,
                        j <= us@.len(),
                        cols@ == before + node_usage_cols(p, c as int).take(j as int),
                        forall|q: int| 0 <= q < before.len() ==> (#[trigger] before[q]).1 < n_strat_vars(p),
                    decreases us@.len() - j,
                {
                    assert(us@[j as int] == p.nodes.usages@[c as int]@[j as int]);
                    cols.push(us[j] as i64, base + j);
                    assert(cols@ =~= before + node_usage_cols(p, c as int).take(j + 1));
                    j += 1;
                }
                proof {
                    assert(node_usage_cols(p, c as int).take(j as int) =~= node_usage_cols(p, c as int));
                    assert(nodes@.take(x + 1).drop_last() =~= nodes@.take(x as int));
                    assert forall|q: int| 0 <= q < cols@.len() implies (#[trigger] cols@[q]).1 < n_strat_vars(p) by {
                        if q >= before.len() {
                            assert(cols@[q] == node_usage_cols(p, c as int)[q - before.len()]);
                        }
                    }
                }
                x += 1;
            }
            proof {
                assert(nodes@.take(x as int) =~= nodes@);
                reveal_strlit("I");
                lemma_powers();
                lemma_label_valid("I"@, t as nat, false);
                assert(start_keys(ivs)[k as int] == t);
            }
            let ghost cols_view = cols@;
            let constr = Constr {
                name: make_label("I", t, false),
                desc: None,
                cols,
                typ: ConstrType::LessEqual,
                rhs: p.usage_limit as i64,
            };
            assert(constr@ == f(t));
            assert(model@.vars.len() == n_strat_vars(p));
            assert forall|q: int| 0 <= q < constr.cols@.len() implies (#[trigger] constr.cols@[q]).1
                < model@.vars.len() by {
                assert(constr.cols@[q] == cols_view[q]);
            }
            match model.add_constr(constr) {
                Ok(()) => {},
                Err(e) => return Err(e),
            }
            proof {
                assert(model@.constrs =~= assign_constrs(p) + keys@.take(k + 1).filter(pred).map_values(f));
            }
        } else {
            proof {
                assert(keys@.take(k + 1).filter(pred) == keys@.take(k as int).filter(pred));
            }
        }
        k += 1;
    }
    proof {
        assert(keys@.take(m as int) =~= keys@);
        assert(usage_constrs(p) =~= keys@.filter(pred).map_values(f));
    }
    Ok(())
}

proof fn lemma_pair_step(a: int, b: int, su: int, sv: int)
    requires
        0 <= a < sv,
        0 <= b < su,
    ensures
        a * su + b < sv * su,
        a * su + b + 1 <= sv * su,
        (a + 1) * su == a * su + su,
{
    assert(a * su + b < sv * su) by (nonlinear_arith)
        requires
            0 <= a < sv,
            0 <= b < su,
    ;
    assert((a + 1) * su == a * su + su) by (nonlinear_arith);
}

/// The connectivity constraint at position `2 * (a * su + b) + side` of edge `e`'s list.
proof fn lemma_edge_link_at(p: &Problem, e: int, a: int, b: int, side: int)
    requires
        0 <= a < n_strats(p, edge_v(p, e)),
        0 <= b < n_strats(p, edge_u(p, e)),
        0 <= side < 2,
    ensures
        2 * (a * n_strats(p, edge_u(p, e)) + b) + side < edge_links(p, e).len(),
        edge_links(p, e)[2 * (a * n_strats(p, edge_u(p, e)) + b) + side] == link_constr(
            p,
            e,
            a,
            b,
            side,
        ),
{
    let su = n_strats(p, edge_u(p, e)) as int;
    let sv = n_strats(p, edge_v(p, e)) as int;
    let i = a * su + b;
    lemma_pair_step(a, b, su, sv);
    let q = 2 * i + side;
    assert(q / 2 == i);
    assert(q % 2 == side);
    lemma_fundamental_div_mod_converse(i, su, a, b);
}

/// Registers one variable per strategy pair of each edge, appends its cost to the objective
/// row, and adds the pair's two connectivity constraints.
fn add_edges(p: &Problem, model: &mut Model, obj: &mut Cols, first_var: &Vec<usize>) -> (r: Result<
    (),
    ModelError,
>)
    requires
        consistent(p),
        coeffs_fit(p),
        names_fit(p),
        old(model)@.wf(),
        old(model)@.vars.len() == n_strat_vars(p),
        first_var@ == Seq::new(n_nodes(p), |i: int| strat_base(p, i as nat) as usize),
        old(obj)@ == node_obj(p, n_nodes(p)),
    ensures
        r is Ok,
        final(model)@.wf(),
        final(model)@.name == old(model)@.name,
        final(model)@.constrs == old(model)@.constrs + link_constrs(p),
        final(model)@.vars.len() == n_strat_vars(p) + n_edge_vars(p),
        forall|v: int|
            0 <= v < n_strat_vars(p) ==> {
                let (x, y) = (#[trigger] final(model)@.vars[v], old(model)@.vars[v]);
                x.name == y.name && x.desc == y.desc && x.obj == y.obj
            },
        forall|v: int|
            n_strat_vars(p) <= v < n_strat_vars(p) + n_edge_vars(p) ==> {
                let x = #[trigger] final(model)@.vars[v];
                x.name == var_name(p, v) && x.desc is None && x.obj is None
            },
        final(obj)@ == model_obj(p),
{
    let ghost sn = n_strat_vars(p);
    let ghost old_vars = model@.vars;
    let ghost old_constrs = model@.constrs;
    proof {
        lemma_pair_base_mono(p, 0, n_edges(p));
    }
    let m = p.edges.nodes.len();
    let mut done: usize = 0;
    let mut e: usize = 0;
    while e < m
        invariant
            consistent(p),
            coeffs_fit(p),
            names_fit(p),
            m == n_edges(p),
            e <= m,
            sn == n_strat_vars(p),
            first_var@ == Seq::new(n_nodes(p), |i: int| strat_base(p, i as nat) as usize),
            done == pair_base(p, e as nat),
            done <= n_edge_vars(p),
            model@.wf(),
            model@.name == old(model)@.name,
            model@.constrs == old_constrs + links_upto(p, e as nat),
            model@.vars.len() == sn + done,
            old_vars.len() == sn,
            forall|v: int|
                0 <= v < sn ==> (#[trigger] model@.vars[v]).name == old_vars[v].name
                    && model@.vars[v].desc == old_vars[v].desc && model@.vars[v].obj
                    == old_vars[v].obj,
            forall|v: int|
                sn <= v < sn + done ==> (#[trigger] model@.vars[v]).name == var_name(p, v)
                    && model@.vars[v].desc is None && model@.vars[v].obj is None,
            obj@ == node_obj(p, n_nodes(p)) + edge_obj(p, e as nat),
        decreases m - e,
    {
        assert(edge_ok(p, e as int));
        let v = p.edges.nodes[e][0];
        let u = p.edges.nodes[e][1];
        let costs = &p.edges.costs[e];
        let sv = p.nodes.costs[v].len();
        let su = p.nodes.costs[u].len();
        let fv = first_var[v];
        let fu = first_var[u];
        proof {
            lemma_pair_base_mono(p, (e + 1) as nat, n_edges(p));
            lemma_strat_base_mono(p, (v + 1) as nat, n_nodes(p));
            lemma_strat_base_mono(p, (u + 1) as nat, n_nodes(p));
        }
        let ghost obj0 = obj@;
        let ghost constrs0 = model@.constrs;
        let mut i: usize = 0;
        let mut a: usize = 0;
        while a < sv
            invariant
                consistent(p),
                coeffs_fit(p),
                names_fit(p),
                e < m,
                m == n_edges(p),
                sn == n_strat_vars(p),
                v == edge_v(p, e as int),
                u == edge_u(p, e as int),
                costs == p.edges.costs@[e as int],
                costs@.len() == n_pairs(p, e as int),
                sv == n_strats(p, v as int),
                su == n_strats(p, u as int),
                fv == strat_base(p, v as nat),
                fu == strat_base(p, u as nat),
                fv + sv <= sn,
                fu + su <= sn,
                sn < 10_000_000,
                n_edge_vars(p) < 10_000_000,
                done == pair_base(p, e as nat),
                done + n_pairs(p, e as int) <= n_edge_vars(p),
                a <= sv,
                i == a * su,
                model@.wf(),
                model@.name == old(model)@.name,
                model@.constrs == constrs0 + edge_links(p, e as int).take(2 * i),
                model@.vars.len() == sn + done + i,
                old_vars.len() == sn,
                forall|w: int|
                    0 <= w < sn ==> (#[trigger] model@.vars[w]).name == old_vars[w].name
                        && model@.vars[w].desc == old_vars[w].desc && model@.vars[w].obj
                        == old_vars[w].obj,
                forall|w: int|
                    sn <= w < sn + done + i ==> (#[trigger] model@.vars[w]).name == var_name(p, w)
                        && model@.vars[w].desc is None && model@.vars[w].obj is None,
                obj@ == obj0 + Seq::new(
                    i as nat,
                    |q: int| (costs@[q] as i64, (sn + done + q) as usize),
                ),
            decreases sv - a,
        {
            let mut b: usize = 0;
            while b < su
                invariant
                    consistent(p),
                    coeffs_fit(p),
                    e < m,
                    m == n_edges(p),
                    sn == n_strat_vars(p),
                    v == edge_v(p, e as int),
                    u == edge_u(p, e as int),
                    costs == p.edges.costs@[e as int],
                    costs@.len() == n_pairs(p, e as int),
                    sv == n_strats(p, v as int),
                    su == n_strats(p, u as int),
                    fv == strat_base(p, v as nat),
                    fu == strat_base(p, u as nat),
                    fv + sv <= sn,
                    fu + su <= sn,
                    sn < 10_000_000,
                    n_edge_vars(p) < 10_000_000,
                    done == pair_base(p, e as nat),
                    done + n_pairs(p, e as int) <= n_edge_vars(p),
                    a < sv,
                    b <= su,
                    i == a * su + b,
                    model@.wf(),
                    model@.name == old(model)@.name,
                    model@.constrs == constrs0 + edge_links(p, e as int).take(2 * i),
                    model@.vars.len() == sn + done + i,
                    old_vars.len() == sn,
                    forall|w: int|
                        0 <= w < sn ==> (#[trigger] model@.vars[w]).name == old_vars[w].name
                            && model@.vars[w].desc == old_vars[w].desc && model@.vars[w].obj
                            == old_vars[w].obj,
                    forall|w: int|
                        sn <= w < sn + done + i ==> (#[trigger] model@.vars[w]).name == var_name(
                            p,
                            w,
                        ) && model@.vars[w].desc is None && model@.vars[w].obj is None,
                    obj@ == obj0 + Seq::new(
                        i as nat,
                        |q: int| (costs@[q] as i64, (sn + done + q) as usize),
                    ),
                decreases su - b,
            {
                proof {
                    lemma_pair_step(a as int, b as int, su as int, sv as int);
                    lemma_edge_link_at(p, e as int, a as int, b as int, 0);
                    lemma_edge_link_at(p, e as int, a as int, b as int, 1);
                    reveal_strlit("E");
                    reveal_strlit("C");
                    lemma_powers();
                    lemma_label_valid("E"@, (done + i + 1) as nat, false);
                    lemma_label_valid("C"@, (2 * (done + i) + 1) as nat, true);
                    lemma_label_valid("C"@, (2 * (done + i) + 2) as nat, true);
                }
                let var_index = match model.add_var(
                    make_label("E", (done + i + 1) as u64, false),
                    None,
                ) {
                    Ok(x) => x,
                    Err(err) => return Err(err),
                };
                assert(costs@[i as int] == p.edges.costs@[e as int]@[i as int]);
                obj.push(costs[i] as i64, var_index);
                let mut cols = Cols::new();
                cols.push(1, var_index);
                cols.push(-1, fv + a);
                let c0 = Constr {
                    name: make_label("C", (2 * (done + i) + 1) as u64, true),
                    desc: None,
                    cols,
                    typ: ConstrType::GreaterEqual,
                    rhs: 0,
                };
                assert(c0@ == edge_links(p, e as int)[2 * i]) by {
                    assert(c0.cols@ =~= link_constr(p, e as int, a as int, b as int, 0).cols);
                }
                match model.add_constr(c0) {
                    Ok(()) => {},
                    Err(err) => return Err(err),
                }
                let mut cols = Cols::new();
                cols.push(1, var_index);
                cols.push(-1, fu + b);
                let c1 = Constr {
                    name: make_label("C", (2 * (done + i) + 2) as u64, true),
                    desc: None,
                    cols,
                    typ: ConstrType::GreaterEqual,
                    rhs: 0,
                };
                assert(c1@ == edge_links(p, e as int)[2 * i + 1]) by {
                    assert(c1.cols@ =~= link_constr(p, e as int, a as int, b as int, 1).cols);
                }
                match model.add_constr(c1) {
                    Ok(()) => {},
                    Err(err) => return Err(err),
                }
                proof {
                    assert(model@.constrs =~= constrs0 + edge_links(p, e as int).take(2 * (i + 1)));
                    assert(obj@ =~= obj0 + Seq::new(
                        (i + 1) as nat,
                        |q: int| (costs@[q] as i64, (sn + done + q) as usize),
                    ));
                }
                i += 1;
                b += 1;
            }
            proof {
                assert((a + 1) * su == a * su + su) by (nonlinear_arith);
            }
            a += 1;
        }
        proof {
            assert(i == n_pairs(p, e as int));
            assert(edge_links(p, e as int).take(2 * i) =~= edge_links(p, e as int));
            assert(model@.constrs =~= old_constrs + links_upto(p, (e + 1) as nat));
            assert(obj@ =~= node_obj(p, n_nodes(p)) + edge_obj(p, (e + 1) as nat));
        }
        done = done + i;
        e += 1;
    }
    Ok(())
}

/// Sum of the coefficients of a row.
pub open spec fn coef_sum(cols: Seq<(i64, usize)>) -> int
    decreases cols.len(),
{
    if cols.len() == 0 {
        0
    } else {
        coef_sum(cols.drop_last()) + cols.last().0
    }
}

proof fn lemma_unit_sum(cols: Seq<(i64, usize)>)
    requires
        forall|k: int| 0 <= k < cols.len() ==> (#[trigger] cols[k]).0 == 1,
    ensures
        coef_sum(cols) == cols.len(),
    decreases cols.len(),
{
    if cols.len() > 0 {
        let rest = cols.drop_last();
        assert forall|k: int| 0 <= k < rest.len() implies (#[trigger] rest[k]).0 == 1 by {
            assert(rest[k] == cols[k]);
        }
        lemma_unit_sum(rest);
    }
}

/// The assignment constraint of each node is an equality with right-hand side 1 whose row
/// holds each of the node's strategy variables once with coefficient 1, so its coefficients
/// sum to the node's number of strategies.
pub proof fn lemma_assignment_row(p: &Problem, i: int)
    requires
        0 <= i < n_nodes(p),
    ensures
        model_constrs(p)[i].typ == ConstrType::Equal,
        model_constrs(p)[i].rhs == 1,
        model_constrs(p)[i].cols.len() == n_strats(p, i),
        forall|k: int|
            0 <= k < n_strats(p, i) ==> #[trigger] model_constrs(p)[i].cols[k] == (
                1i64,
                (strat_base(p, i as nat) + k) as usize,
            ),
        coef_sum(model_constrs(p)[i].cols) == n_strats(p, i),
{
    let c = model_constrs(p)[i];
    assert(c == assign_constr(p, i));
    lemma_unit_sum(c.cols);
}

proof fn lemma_links_at(p: &Problem, f: nat, e: int, q: int)
    requires
        0 <= e < f,
        0 <= q < 2 * n_pairs(p, e),
    ensures
        links_upto(p, f).len() == 2 * pair_base(p, f),
        2 * pair_base(p, e as nat) + q < links_upto(p, f).len(),
        links_upto(p, f)[2 * pair_base(p, e as nat) + q] == edge_links(p, e)[q],
    decreases f,
{
    lemma_links_len(p, f);
    lemma_pair_base_mono(p, (e + 1) as nat, f);
    if e < f - 1 {
        lemma_links_at(p, (f - 1) as nat, e, q);
    }
}

proof fn lemma_links_len(p: &Problem, f: nat)
    ensures
        links_upto(p, f).len() == 2 * pair_base(p, f),
    decreases f,
{
    if f > 0 {
        lemma_links_len(p, (f - 1) as nat);
    }
}

/// Each strategy pair `(a, b)` of each edge `e` gets two consecutive greater-or-equal
/// constraints with right-hand side 0 and two entries each: +1 on the pair's edge variable,
/// and -1 on the v-strategy variable, then on the u-strategy variable.
pub proof fn lemma_connectivity_pair(p: &Problem, e: int, a: int, b: int)
    requires
        0 <= e < n_edges(p),
        0 <= a < n_strats(p, edge_v(p, e)),
        0 <= b < n_strats(p, edge_u(p, e)),
    ensures
        ({
            let at = (n_nodes(p) + usage_constrs(p).len() + 2 * pair_index(p, e, a, b)) as int;
            let edge_var = (n_strat_vars(p) + pair_index(p, e, a, b)) as usize;
            let v_var = (strat_base(p, edge_v(p, e) as nat) + a) as usize;
            let u_var = (strat_base(p, edge_u(p, e) as nat) + b) as usize;
            &&& at + 1 < model_constrs(p).len()
            &&& model_constrs(p)[at].typ == ConstrType::GreaterEqual
            &&& model_constrs(p)[at].rhs == 0
            &&& model_constrs(p)[at].cols == seq![(1i64, edge_var), (-1i64, v_var)]
            &&& model_constrs(p)[at + 1].typ == ConstrType::GreaterEqual
            &&& model_constrs(p)[at + 1].rhs == 0
            &&& model_constrs(p)[at + 1].cols == seq![(1i64, edge_var), (-1i64, u_var)]
        }),
{
    let su = n_strats(p, edge_u(p, e)) as int;
    let i = a * su + b;
    lemma_edge_link_at(p, e, a, b, 0);
    lemma_edge_link_at(p, e, a, b, 1);
    lemma_links_at(p, n_edges(p), e, 2 * i);
    lemma_links_at(p, n_edges(p), e, 2 * i + 1);
    let pre = assign_constrs(p) + usage_constrs(p);
    let at = (n_nodes(p) + usage_constrs(p).len() + 2 * pair_index(p, e, a, b)) as int;
    assert(model_constrs(p)[at] == link_constrs(p)[at - pre.len()]);
    assert(model_constrs(p)[at + 1] == link_constrs(p)[at + 1 - pre.len()]);
}

/// Size of the model: `Σ|strategies(node)| + Σ|strategies(v)|×|strategies(u)|` variables,
/// and `|nodes| + |interval starts with a covering node| + 2 × Σ|strategy pairs|` constraints.
pub proof fn lemma_model_size(p: &Problem, mv: ModelView)
    requires
        is_model_of(p, mv),
    ensures
        mv.vars.len() == n_strat_vars(p) + n_edge_vars(p),
        mv.constrs.len() == n_nodes(p) + active_starts(p).len() + 2 * n_edge_vars(p),
{
    lemma_links_len(p, n_edges(p));
}

/// `mv` is the model of `p`: its constraints, objective row and variables are those above,
/// every name is valid, and each variable's back-references are the entries of
/// the constraints that name it.
pub open spec fn is_model_of(p: &Problem, mv: ModelView) -> bool {
    &&& mv.wf()
    &&& mv.name == p.name@
    &&& mv.constrs == model_constrs(p)
    &&& mv.obj == model_obj(p)
    &&& mv.vars.len() == n_strat_vars(p) + n_edge_vars(p)
    &&& forall|v: int|
        0 <= v < mv.vars.len() ==> {
            let x = #[trigger] mv.vars[v];
            &&& x.name == var_name(p, v)
            &&& x.desc is None
            &&& x.obj == Some(model_obj(p)[v].0)
        }
}

fn check_names(p: &Problem, keys: &Vec<u64>, buckets: &Vec<Vec<usize>>) -> (r: bool)
    requires
        consistent(p),
        keys@ == start_keys(p.nodes.intervals@),
        buckets@.len() == keys@.len(),
        forall|k: int|
            0 <= k < buckets@.len() ==> (#[trigger] buckets@[k])@ == covering(
                p.nodes.intervals@,
                keys@[k],
            ),
    ensures
        r == names_fit(p),
{
    let limit: usize = 10_000_000;
    let n = p.nodes.costs.len();
    if n > 0x1000_0000 {
        return false;
    }
    let mut total: usize = 0;
    let mut i: usize = 0;
    while i < n
        invariant
            n == n_nodes(p),
            i <= n,
            limit == 10_000_000,
            total == strat_base(p, i as nat),
            total < limit,
        decreases n - i,
    {
        let s = p.nodes.costs[i].len();
        if s >= limit - total {
            proof {
                lemma_strat_base_mono(p, (i + 1) as nat, n as nat);
            }
            return false;
        }
        total = total + s;
        i += 1;
    }
    let m = p.edges.nodes.len();
    let mut pairs: usize = 0;
    let mut e: usize = 0;
    while e < m
        invariant
            consistent(p),
            m == n_edges(p),
            e <= m,
            limit == 10_000_000,
            n_strat_vars(p) < 10_000_000,
            n_nodes(p) <= 0x1000_0000,
            pairs == pair_base(p, e as nat),
            pairs < limit,
        decreases m - e,
    {
        assert(edge_ok(p, e as int));
        let s = p.edges.costs[e].len();
        if s >= limit - pairs {
            proof {
                lemma_pair_base_mono(p, (e + 1) as nat, m as nat);
            }
            return false;
        }
        pairs = pairs + s;
        e += 1;
    }
    let mut k: usize = 0;
    while k < keys.len()
        invariant
            keys@ == start_keys(p.nodes.intervals@),
            buckets@.len() == keys@.len(),
            forall|b: int|
                0 <= b < buckets@.len() ==> (#[trigger] buckets@[b])@ == covering(
                    p.nodes.intervals@,
                    keys@[b],
                ),
            k <= keys@.len(),
            forall|b: int|
                0 <= b < k && covering(p.nodes.intervals@, #[trigger] start_keys(p.nodes.intervals@)[b]).len()
                    > 0 ==> start_keys(p.nodes.intervals@)[b] < 10_000_000,
        decreases keys@.len() - k,
    {
        if buckets[k].len() > 0 && keys[k] >= 10_000_000 {
            assert(covering(p.nodes.intervals@, start_keys(p.nodes.intervals@)[k as int]).len() > 0);
            return false;
        }
        k += 1;
    }
    true
}

proof fn lemma_node_obj_diag(p: &Problem, i: nat)
    requires
        i <= n_nodes(p),
        strat_base(p, i) <= usize::MAX,
    ensures
        node_obj(p, i).len() == strat_base(p, i),
        forall|k: int| 0 <= k < node_obj(p, i).len() ==> (#[trigger] node_obj(p, i)[k]).1 == k,
    decreases i,
{
    if i > 0 {
        lemma_node_obj_diag(p, (i - 1) as nat);
    }
}

proof fn lemma_edge_obj_diag(p: &Problem, e: nat)
    requires
        e <= n_edges(p),
        n_strat_vars(p) + pair_base(p, e) <= usize::MAX,
    ensures
        edge_obj(p, e).len() == pair_base(p, e),
        forall|k: int|
            0 <= k < edge_obj(p, e).len() ==> (#[trigger] edge_obj(p, e)[k]).1 == n_strat_vars(p)
                + k,
    decreases e,
{
    if e > 0 {
        lemma_edge_obj_diag(p, (e - 1) as nat);
    }
}

proof fn lemma_obj_after_diag(cols: Seq<(i64, usize)>, v: nat, prev: Option<i64>)
    requires
        v < cols.len(),
        forall|k: int| 0 <= k < cols.len() ==> (#[trigger] cols[k]).1 == k,
    ensures
        obj_after(cols, v, prev) == Some(cols[v as int].0),
    decreases cols.len(),
{
    if cols.last().1 != v {
        let rest = cols.drop_last();
        assert forall|k: int| 0 <= k < rest.len() implies (#[trigger] rest[k]).1 == k by {
            assert(rest[k] == cols[k]);
        }
        lemma_obj_after_diag(rest, v, prev);
    }
}

/// Builds the model of `p`: one variable per strategy and per edge strategy pair, the
/// assignment constraint of each node, one resource constraint per active interval start, and
/// two connectivity constraints per edge strategy pair. Input consistency is checked first,
/// then that every coefficient fits, then that every generated name is valid.
pub fn build_model(p: &Problem) -> (r: Result<Model, ModelError>)
    ensures
        !consistent(p) ==> r == Err::<Model, ModelError>(ModelError::InputDecode),
        consistent(p) && !coeffs_fit(p) ==> r == Err::<Model, ModelError>(
            ModelError::CoefficientOverflow,
        ),
        consistent(p) && coeffs_fit(p) && !names_fit(p) ==> r == Err::<Model, ModelError>(
            ModelError::NamingViolation,
        ),
        consistent(p) && coeffs_fit(p) && names_fit(p) ==> (r matches Ok(m) && is_model_of(p, m@)),
{
    if !check_consistent(p) {
        return Err(ModelError::InputDecode);
    }
    if !check_coeffs(p) {
        return Err(ModelError::CoefficientOverflow);
    }
    let (keys, buckets) = sweep(&p.nodes.intervals);
    if !check_names(p, &keys, &buckets) {
        return Err(ModelError::NamingViolation);
    }
    let mut model = Model::new(p.name.clone());
    let mut obj = Cols::new();
    let first_var = match add_nodes(p, &mut model, &mut obj) {
        Ok(f) => f,
        Err(e) => return Err(e),
    };
    match add_usages(p, &mut model, &first_var, &keys, &buckets) {
        Ok(()) => {},
        Err(e) => return Err(e),
    }
    match add_edges(p, &mut model, &mut obj, &first_var) {
        Ok(()) => {},
        Err(e) => return Err(e),
    }
    let ghost cols = obj@;
    proof {
        lemma_node_obj_diag(p, n_nodes(p));
        lemma_edge_obj_diag(p, n_edges(p));
        let a = node_obj(p, n_nodes(p));
        let b = edge_obj(p, n_edges(p));
        assert forall|k: int| 0 <= k < cols.len() implies (#[trigger] cols[k]).1 < model@.vars.len()
            && cols[k].1 == k by {
            if k < a.len() {
                assert(cols[k] == a[k]);
            } else {
                assert(cols[k] == b[k - a.len()]);
            }
        }
    }
    let ghost before = model@;
    model.set_obj(obj);
    proof {
        assert(model@.constrs =~= model_constrs(p));
        assert forall|v: int| 0 <= v < model@.vars.len() implies {
            let x = #[trigger] model@.vars[v];
            &&& x.name == var_name(p, v)
            &&& x.desc is None
            &&& x.obj == Some(model_obj(p)[v].0)
        } by {
            assert(before.vars[v].obj is None);
            lemma_obj_after_diag(cols, v as nat, None);
        }
    }
    Ok(model)
}

} // verus!
