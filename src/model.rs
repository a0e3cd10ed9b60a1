use vstd::prelude::*;

use crate::mps::{
    bounds_text, column_line, columns_text, desc_line, entry_lines, head_text, mps_text, rhs_text,
    rows_text, type_code,
};
use crate::text::{check_name, int_string, push_padded, valid_name};

verus! {

/// Sparse row: the (coefficient, variable index) pairs of one constraint or of the objective.
pub struct Cols(Vec<(i64, usize)>);

impl View for Cols {
    type V = Seq<(i64, usize)>;

    closed spec fn view(&self) -> Seq<(i64, usize)> {
        self.0@
    }
}

impl Cols {
    pub fn new() -> (r: Self)
        ensures
            r@ == Seq::<(i64, usize)>::empty(),
    {
        Cols(Vec::new())
    }

    pub fn push(&mut self, coe: i64, var_index: usize)
        ensures
            final(self)@ == old(self)@.push((coe, var_index)),
    {
        self.0.push((coe, var_index))
    }

    /// The (coefficient, variable index) entries in the order they were pushed.
    pub fn entries(&self) -> (r: &[(i64, usize)])
        ensures
            r@ == self@,
    {
        self.0.as_slice()
    }
}

/// Relation between the row of a constraint and its right-hand side.
#[derive(Clone, Copy, Debug, PartialEq, Eq, Structural)]
pub enum ConstrType {
    Equal,
    LessEqual,
    GreaterEqual,
}

/// Failure of model construction.
#[derive(Clone, Copy, Debug, PartialEq, Eq, Structural)]
pub enum ModelError {
    /// The problem data is structurally inconsistent.
    InputDecode,
    /// A variable or constraint name is not exactly eight characters free of control
    /// characters.
    NamingViolation,
    /// A cost, usage or limit does not fit in a signed 64-bit coefficient.
    CoefficientOverflow,
}

/// A constraint as handed to the model.
pub struct Constr {
    pub name: String,
    pub desc: Option<String>,
    pub cols: Cols,
    pub typ: ConstrType,
    pub rhs: i64,
}

pub ghost struct ConstrView {
    pub name: Seq<char>,
    pub desc: Option<Seq<char>>,
    pub cols: Seq<(i64, usize)>,
    pub typ: ConstrType,
    pub rhs: i64,
}

pub open spec fn opt_text(o: Option<String>) -> Option<Seq<char>> {
    match o {
        Some(s) => Some(s@),
        None => None,
    }
}

impl View for Constr {
    type V = ConstrView;

    open spec fn view(&self) -> ConstrView {
        ConstrView {
            name: self.name@,
            desc: opt_text(self.desc),
            cols: self.cols@,
            typ: self.typ,
            rhs: self.rhs,
        }
    }
}

/// A binary decision variable with the constraints it takes part in.
pub struct Var {
    name: String,
    desc: Option<String>,
    nonzeros: Vec<(usize, i64)>,
    obj_nonzero: Option<i64>,
}

pub ghost struct VarView {
    pub name: Seq<char>,
    pub desc: Option<Seq<char>>,
    /// (constraint index, coefficient), in the order the constraints were added.
    pub nonzeros: Seq<(usize, i64)>,
    pub obj: Option<i64>,
}

impl View for Var {
    type V = VarView;

    closed spec fn view(&self) -> VarView {
        VarView {
            name: self.name@,
            desc: opt_text(self.desc),
            nonzeros: self.nonzeros@,
            obj: self.obj_nonzero,
        }
    }
}

/// The model store: variables, constraints and the objective row.
pub struct Model {
    name: String,
    vars: Vec<Var>,
    constrs: Vec<Constr>,
    obj: Cols,
}

pub ghost struct ModelView {
    pub name: Seq<char>,
    pub vars: Seq<VarView>,
    pub constrs: Seq<ConstrView>,
    pub obj: Seq<(i64, usize)>,
}

/// The entries that the row `cols` of constraint `c` gives variable `v`.
pub open spec fn row_refs(cols: Seq<(i64, usize)>, c: usize, v: nat) -> Seq<(usize, i64)>
    decreases cols.len(),
{
    if cols.len() == 0 {
        Seq::empty()
    } else {
        let rest = row_refs(cols.drop_last(), c, v);
        if cols.last().1 == v {
            rest.push((c, cols.last().0))
        } else {
            rest
        }
    }
}

/// The back-references of variable `v`: one (constraint, coefficient) entry for each time a
/// constraint row of `cs` names `v`, in the order of the constraints and of their rows.
pub open spec fn back_refs(cs: Seq<ConstrView>, v: nat) -> Seq<(usize, i64)>
    decreases cs.len(),
{
    if cs.len() == 0 {
        Seq::empty()
    } else {
        back_refs(cs.drop_last(), v) + row_refs(cs.last().cols, (cs.len() - 1) as usize, v)
    }
}

/// The coefficient that the objective row `cols` leaves on variable `v`: the last one that
/// names it, else `prev`.
pub open spec fn obj_after(cols: Seq<(i64, usize)>, v: nat, prev: Option<i64>) -> Option<i64>
    decreases cols.len(),
{
    if cols.len() == 0 {
        prev
    } else if cols.last().1 == v {
        Some(cols.last().0)
    } else {
        obj_after(cols.drop_last(), v, prev)
    }
}

impl ModelView {
    /// Every row names existing variables, every name is valid, and each
    /// variable's back-references are exactly the entries of the rows that name it.
    pub open spec fn wf(self) -> bool {
        &&& forall|c: int, k: int|
            0 <= c < self.constrs.len() && 0 <= k < self.constrs[c].cols.len()
                ==> (#[trigger] self.constrs[c].cols[k]).1 < self.vars.len()
        &&& forall|c: int| 0 <= c < self.constrs.len() ==> valid_name(
            #[trigger] self.constrs[c].name,
        )
        &&& forall|v: int| 0 <= v < self.vars.len() ==> valid_name(
            #[trigger] self.vars[v].name,
        )
        &&& forall|v: int|
            0 <= v < self.vars.len() ==> (#[trigger] self.vars[v]).nonzeros == back_refs(
                self.constrs,
                v as nat,
            )
    }
}

impl View for Model {
    type V = ModelView;

    closed spec fn view(&self) -> ModelView {
        ModelView {
            name: self.name@,
            vars: self.vars@.map_values(|v: Var| v@),
            constrs: self.constrs@.map_values(|c: Constr| c@),
            obj: self.obj@,
        }
    }
}

proof fn lemma_row_refs_none(cols: Seq<(i64, usize)>, c: usize, v: nat)
    requires
        forall|k: int| 0 <= k < cols.len() ==> (#[trigger] cols[k]).1 < v,
    ensures
        row_refs(cols, c, v) == Seq::<(usize, i64)>::empty(),
    decreases cols.len(),
{
    if cols.len() > 0 {
        lemma_row_refs_none(cols.drop_last(), c, v);
    }
}

proof fn lemma_back_refs_none(cs: Seq<ConstrView>, v: nat)
    requires
        forall|c: int, k: int|
            0 <= c < cs.len() && 0 <= k < cs[c].cols.len() ==> (#[trigger] cs[c].cols[k]).1 < v,
    ensures
        back_refs(cs, v) == Seq::<(usize, i64)>::empty(),
    decreases cs.len(),
{
    if cs.len() > 0 {
        let last = cs.last();
        assert forall|k: int| 0 <= k < last.cols.len() implies (#[trigger] last.cols[k]).1 < v by {
            assert(cs[cs.len() - 1].cols[k] == last.cols[k]);
        }
        lemma_row_refs_none(last.cols, (cs.len() - 1) as usize, v);
        lemma_back_refs_none(cs.drop_last(), v);
        assert(back_refs(cs, v) =~= Seq::<(usize, i64)>::empty());
    }
}

/// Every back-reference names a constraint of `cs`.
pub proof fn lemma_back_refs_bound(cs: Seq<ConstrView>, v: nat)
    requires
        cs.len() <= usize::MAX,
    ensures
        forall|k: int|
            0 <= k < back_refs(cs, v).len() ==> (#[trigger] back_refs(cs, v)[k]).0 < cs.len(),
    decreases cs.len(),
{
    if cs.len() > 0 {
        lemma_back_refs_bound(cs.drop_last(), v);
        lemma_row_refs_bound(cs.last().cols, (cs.len() - 1) as usize, v);
        let a = back_refs(cs.drop_last(), v);
        let b = row_refs(cs.last().cols, (cs.len() - 1) as usize, v);
        assert forall|k: int| 0 <= k < back_refs(cs, v).len() implies (#[trigger] back_refs(
            cs,
            v,
        )[k]).0 < cs.len() by {
            if k < a.len() {
                assert(back_refs(cs, v)[k] == a[k]);
            } else {
                assert(back_refs(cs, v)[k] == b[k - a.len()]);
            }
        }
    }
}

proof fn lemma_row_refs_bound(cols: Seq<(i64, usize)>, c: usize, v: nat)
    ensures
        forall|k: int|
            0 <= k < row_refs(cols, c, v).len() ==> (#[trigger] row_refs(cols, c, v)[k]).0
                == c,
    decreases cols.len(),
{
    if cols.len() > 0 {
        lemma_row_refs_bound(cols.drop_last(), c, v);
        let rest = row_refs(cols.drop_last(), c, v);
        assert forall|k: int| 0 <= k < row_refs(cols, c, v).len() implies (#[trigger] row_refs(
            cols,
            c,
            v,
        )[k]).0 == c by {
            if k < rest.len() {
                assert(row_refs(cols, c, v)[k] == rest[k]);
            }
        }
    }
}

impl Model {
    /// An empty model named `name`.
    pub fn new(name: String) -> (r: Self)
        ensures
            r@.name == name@,
            r@.vars.len() == 0,
            r@.constrs.len() == 0,
            r@.obj.len() == 0,
            r@.wf(),
    {
        let r = Model { name, vars: Vec::new(), constrs: Vec::new(), obj: Cols::new() };
        assert(r@.vars =~= Seq::<VarView>::empty());
        assert(r@.constrs =~= Seq::<ConstrView>::empty());
        r
    }

    /// Registers a variable without constraints or objective coefficient and returns its index.
    pub fn add_var(&mut self, name: String, desc: Option<String>) -> (r: Result<usize, ModelError>)
        requires
            old(self)@.wf(),
        ensures
            final(self)@.wf(),
            valid_name(name@) ==> r == Ok::<usize, ModelError>(old(self)@.vars.len() as usize)
                && final(self)@ == (ModelView {
                vars: old(self)@.vars.push(
                    VarView { name: name@, desc: opt_text(desc), nonzeros: Seq::empty(), obj: None },
                ),
                ..old(self)@
            }),
            !valid_name(name@) ==> r == Err::<usize, ModelError>(ModelError::NamingViolation)
                && final(self)@ == old(self)@,
    {
        if !check_name(name.as_str()) {
            return Err(ModelError::NamingViolation);
        }
        let index = self.vars.len();
        let ghost old_view = self@;
        self.vars.push(Var { name, desc, nonzeros: Vec::new(), obj_nonzero: None });
        assert(self@.vars =~= old_view.vars.push(
            VarView { name: name@, desc: opt_text(desc), nonzeros: Seq::empty(), obj: None },
        ));
        proof {
            let cs = self@.constrs;
            assert forall|c: int, k: int|
                0 <= c < cs.len() && 0 <= k < cs[c].cols.len() implies (#[trigger] cs[c].cols[k]).1
                < index by {}
            lemma_back_refs_none(cs, index as nat);
        }
        Ok(index)
    }

    /// Registers a constraint under the next index and records, for each entry of its row,
    /// a back-reference on the variable it names.
    pub fn add_constr(&mut self, constr: Constr) -> (r: Result<(), ModelError>)
        requires
            old(self)@.wf(),
            valid_name(constr.name@) ==> forall|k: int|
                0 <= k < constr.cols@.len() ==> (#[trigger] constr.cols@[k]).1 < old(
                    self,
                )@.vars.len(),
        ensures
            final(self)@.wf(),
            valid_name(constr.name@) ==> r == Ok::<(), ModelError>(()) && final(self)@.constrs
                == old(self)@.constrs.push(constr@) && final(self)@.name == old(self)@.name
                && final(self)@.obj == old(self)@.obj && final(self)@.vars.len() == old(
                self,
            )@.vars.len() && forall|v: int|
                0 <= v < old(self)@.vars.len() ==> {
                    let (a, b) = (#[trigger] final(self)@.vars[v], old(self)@.vars[v]);
                    &&& a.name == b.name
                    &&& a.desc == b.desc
                    &&& a.obj == b.obj
                    &&& a.nonzeros == b.nonzeros + row_refs(
                        constr.cols@,
                        old(self)@.constrs.len() as usize,
                        v as nat,
                    )
                },
            !valid_name(constr.name@) ==> r == Err::<(), ModelError>(ModelError::NamingViolation)
                && final(self)@ == old(self)@,
    {
        if !check_name(constr.name.as_str()) {
            return Err(ModelError::NamingViolation);
        }
        let index = self.constrs.len();
        let ghost old_vars = self.vars@;
        let ghost cols = constr.cols@;
        let n = constr.cols.0.len();
        let mut k: usize = 0;
        while k < n
            invariant
                n == cols.len(),
                cols == constr.cols@,
                k <= n,
                index == self.constrs@.len(),
                self.constrs == old(self).constrs,
                self.name == old(self).name,
                self.obj == old(self).obj,
                self.vars@.len() == old_vars.len(),
                forall|i: int| 0 <= i < cols.len() ==> (#[trigger] cols[i]).1 < old_vars.len(),
                forall|v: int|
                    0 <= v < old_vars.len() ==> {
                        let (a, b) = (#[trigger] self.vars@[v], old_vars[v]);
                        &&& a.name == b.name
                        &&& a.desc == b.desc
                        &&& a.obj_nonzero == b.obj_nonzero
                        &&& a.nonzeros@ == b.nonzeros@ + row_refs(
                            cols.take(k as int),
                            index,
                            v as nat,
                        )
                    },
            decreases n - k,
        {
            let (coe, var_index) = constr.cols.0[k];
            self.vars[var_index].nonzeros.push((index, coe));
            proof {
                assert(cols.take(k + 1).drop_last() =~= cols.take(k as int));
                assert forall|v: int| 0 <= v < old_vars.len() implies {
                    let (a, b) = (#[trigger] self.vars@[v], old_vars[v]);
                    a.nonzeros@ == b.nonzeros@ + row_refs(cols.take(k + 1), index, v as nat)
                } by {
                    let r = row_refs(cols.take(k as int), index, v as nat);
                    if v == var_index {
                        assert(old_vars[v].nonzeros@ + r.push((index, coe)) =~= (
                        old_vars[v].nonzeros@ + r).push((index, coe)));
                    }
                }
            }
            k += 1;
        }
        let ghost old_view = self@;
        self.constrs.push(constr);
        proof {
            assert(cols.take(n as int) =~= cols);
            let cs = self@.constrs;
            assert(cs =~= old_view.constrs.push(constr@));
            assert(cs.drop_last() =~= old_view.constrs);
            assert forall|v: int| 0 <= v < self@.vars.len() implies (#[trigger] self@.vars[v]).nonzeros
                == back_refs(cs, v as nat) by {
                assert(old(self)@.vars[v] == old_vars[v]@);
                assert(self@.vars[v] == self.vars@[v]@);
                assert(old(self)@.vars[v].nonzeros == back_refs(old_view.constrs, v as nat));
            }
            assert forall|c: int, j: int|
                0 <= c < cs.len() && 0 <= j < cs[c].cols.len() implies (#[trigger] cs[c].cols[j]).1
                < self@.vars.len() by {
                if c < cs.len() - 1 {
                    assert(cs[c] == old_view.constrs[c]);
                }
            }
            assert forall|c: int| 0 <= c < cs.len() implies valid_name(#[trigger] cs[c].name) by {
                if c < cs.len() - 1 {
                    assert(cs[c] == old_view.constrs[c]);
                }
            }
            assert forall|v: int| 0 <= v < self@.vars.len() implies valid_name(
                #[trigger] self@.vars[v].name,
            ) by {
                assert(old(self)@.vars[v] == old_vars[v]@);
                assert(self@.vars[v] == self.vars@[v]@);
                assert(valid_name(old(self)@.vars[v].name));
            }
        }
        Ok(())
    }

    /// Sets each named variable's objective coefficient; where a variable is named twice the
    /// last entry wins. The row replaces the previous objective row.
    pub fn set_obj(&mut self, objective: Cols)
        requires
            old(self)@.wf(),
            forall|k: int|
                0 <= k < objective@.len() ==> (#[trigger] objective@[k]).1 < old(self)@.vars.len(),
        ensures
            final(self)@.wf(),
            final(self)@.obj == objective@,
            final(self)@.name == old(self)@.name,
            final(self)@.constrs == old(self)@.constrs,
            final(self)@.vars.len() == old(self)@.vars.len(),
            forall|v: int|
                0 <= v < old(self)@.vars.len() ==> {
                    let (a, b) = (#[trigger] final(self)@.vars[v], old(self)@.vars[v]);
                    &&& a.name == b.name
                    &&& a.desc == b.desc
                    &&& a.nonzeros == b.nonzeros
                    &&& a.obj == obj_after(objective@, v as nat, b.obj)
                },
    {
        let ghost old_vars = self.vars@;
        let ghost cols = objective@;
        let n = objective.0.len();
        let mut k: usize = 0;
        while k < n
            invariant
                n == cols.len(),
                cols == objective@,
                k <= n,
                self.constrs == old(self).constrs,
                self.name == old(self).name,
                self.vars@.len() == old_vars.len(),
                forall|i: int| 0 <= i < cols.len() ==> (#[trigger] cols[i]).1 < old_vars.len(),
                forall|v: int|
                    0 <= v < old_vars.len() ==> {
                        let (a, b) = (#[trigger] self.vars@[v], old_vars[v]);
                        &&& a.name == b.name
                        &&& a.desc == b.desc
                        &&& a.nonzeros == b.nonzeros
                        &&& a.obj_nonzero == obj_after(
                            cols.take(k as int),
                            v as nat,
                            b.obj_nonzero,
                        )
                    },
            decreases n - k,
        {
            let (coe, var_index) = objective.0[k];
            self.vars[var_index].obj_nonzero = Some(coe);
            assert(cols.take(k + 1).drop_last() =~= cols.take(k as int));
            k += 1;
        }
        assert(cols.take(n as int) =~= cols);
        self.obj = objective;
        proof {
            assert(self@.constrs == old(self)@.constrs);
            assert forall|v: int| 0 <= v < self@.vars.len() implies {
                let (a, b) = (#[trigger] self@.vars[v], old(self)@.vars[v]);
                &&& a.name == b.name
                &&& a.desc == b.desc
                &&& a.nonzeros == b.nonzeros
                &&& a.obj == obj_after(objective@, v as nat, b.obj)
            } by {
                assert(old(self)@.vars[v] == old_vars[v]@);
                assert(self@.vars[v] == self.vars@[v]@);
            }
        }
    }
}

fn push_desc(out: &mut String, desc: &Option<String>)
    ensures
        final(out)@ == old(out)@ + desc_line(opt_text(*desc)),
{
    match desc {
        Some(d) => {
            out.append("* ");
            out.append(d.as_str());
            out.append("\n");
        },
        None => {},
    }
}

fn type_str(t: ConstrType) -> (r: &'static str)
    ensures
        r@ == type_code(t),
{
    match t {
        ConstrType::Equal => "E",
        ConstrType::LessEqual => "L",
        ConstrType::GreaterEqual => "G",
    }
}

fn push_column_line(out: &mut String, var: &str, row: &str, coe: i64)
    ensures
        final(out)@ == old(out)@ + column_line(var@, row@, coe),
{
    out.append("    ");
    push_padded(out, var, 10);
    push_padded(out, row, 10);
    out.append(int_string(coe).as_str());
    out.append("\n");
}

impl Model {
    pub fn name(&self) -> (r: &String)
        ensures
            r@ == self@.name,
    {
        &self.name
    }

    pub fn num_vars(&self) -> (r: usize)
        ensures
            r == self@.vars.len(),
    {
        self.vars.len()
    }

    pub fn num_constrs(&self) -> (r: usize)
        ensures
            r == self@.constrs.len(),
    {
        self.constrs.len()
    }

    pub fn var_name(&self, v: usize) -> (r: &String)
        requires
            v < self@.vars.len(),
        ensures
            r@ == self@.vars[v as int].name,
    {
        &self.vars[v].name
    }

    pub fn var_obj(&self, v: usize) -> (r: Option<i64>)
        requires
            v < self@.vars.len(),
        ensures
            r == self@.vars[v as int].obj,
    {
        self.vars[v].obj_nonzero
    }

    /// The (constraint index, coefficient) back-references of variable `v`.
    pub fn var_nonzeros(&self, v: usize) -> (r: &[(usize, i64)])
        requires
            v < self@.vars.len(),
        ensures
            r@ == self@.vars[v as int].nonzeros,
    {
        self.vars[v].nonzeros.as_slice()
    }

    pub fn constr(&self, c: usize) -> (r: &Constr)
        requires
            c < self@.constrs.len(),
        ensures
            r@ == self@.constrs[c as int],
    {
        &self.constrs[c]
    }

    /// The objective row as last set.
    pub fn objective(&self) -> (r: &Cols)
        ensures
            r@ == self@.obj,
    {
        &self.obj
    }

    /// The model in the fixed-column exchange format.
    pub fn to_mps(&self) -> (r: String)
        requires
            self@.wf(),
        ensures
            r@ == mps_text(self@),
    {
        let ghost m = self@;
        let mut out = String::new();
        push_padded(&mut out, "NAME", 14);
        out.append(self.name.as_str());
        out.append("\n");
        out.append("ROWS\n");
        out.append(" ");
        push_padded(&mut out, "N", 3);
        out.append("OBJECTIV");
        out.append("\n");
        assert(out@ =~= head_text(m));
        let ghost base = out@;
        let nc = self.constrs.len();
        let mut c: usize = 0;
        while c < nc
            invariant
                m == self@,
                nc == m.constrs.len(),
                c <= nc,
                out@ == base + rows_text(m, c as nat),
            decreases nc - c,
        {
            let con = &self.constrs[c];
            assert(m.constrs[c as int] == con@);
            push_desc(&mut out, &con.desc);
            out.append(" ");
            push_padded(&mut out, type_str(con.typ), 3);
            out.append(con.name.as_str());
            out.append("\n");
            assert(out@ =~= base + rows_text(m, (c + 1) as nat));
            c += 1;
        }
        out.append("COLUMNS\n");
        let ghost base = out@;
        let nv = self.vars.len();
        let mut v: usize = 0;
        while v < nv
            invariant
                m == self@,
                m.wf(),
                nc == m.constrs.len(),
                nv == m.vars.len(),
                v <= nv,
                out@ == base + columns_text(m, v as nat),
            decreases nv - v,
        {
            let var = &self.vars[v];
            let ghost x = var@;
            assert(m.vars[v as int] == x);
            push_desc(&mut out, &var.desc);
            match var.obj_nonzero {
                Some(coe) => push_column_line(&mut out, var.name.as_str(), "OBJECTIV", coe),
                None => {},
            }
            let ghost mid = out@;
            proof {
                lemma_back_refs_bound(m.constrs, v as nat);
            }
            let nz = var.nonzeros.len();
            let mut k: usize = 0;
            while k < nz
                invariant
                    m == self@,
                    x == m.vars[v as int],
                    var@ == x,
                    nz == x.nonzeros.len(),
                    nc == m.constrs.len(),
                    x.nonzeros == back_refs(m.constrs, v as nat),
                    forall|j: int| 0 <= j < nz ==> (#[trigger] x.nonzeros[j]).0 < nc,
                    k <= nz,
                    out@ == mid + entry_lines(m, x, k as nat),
                decreases nz - k,
            {
                let (ci, coe) = var.nonzeros[k];
                assert(x.nonzeros[k as int] == (ci, coe));
                let row = &self.constrs[ci];
                assert(m.constrs[ci as int] == row@);
                push_column_line(&mut out, var.name.as_str(), row.name.as_str(), coe);
                assert(out@ =~= mid + entry_lines(m, x, (k + 1) as nat));
                k += 1;
            }
            assert(out@ =~= base + columns_text(m, (v + 1) as nat));
            v += 1;
        }
        out.append("RHS\n");
        let ghost base = out@;
        let mut c: usize = 0;
        while c < nc
            invariant
                m == self@,
                nc == m.constrs.len(),
                c <= nc,
                out@ == base + rhs_text(m, c as nat),
            decreases nc - c,
        {
            let con = &self.constrs[c];
            assert(m.constrs[c as int] == con@);
            out.append("    ");
            push_padded(&mut out, "________", 10);
            push_padded(&mut out, con.name.as_str(), 10);
            out.append(int_string(con.rhs).as_str());
            out.append("\n");
            assert(out@ =~= base + rhs_text(m, (c + 1) as nat));
            c += 1;
        }
        out.append("BOUNDS\n");
        let ghost base = out@;
        let mut v: usize = 0;
        while v < nv
            invariant
                m == self@,
                nv == m.vars.len(),
                v <= nv,
                out@ == base + bounds_text(m, v as nat),
            decreases nv - v,
        {
            let var = &self.vars[v];
            assert(m.vars[v as int] == var@);
            out.append(" ");
            push_padded(&mut out, "BV", 3);
            push_padded(&mut out, "________", 10);
            out.append(var.name.as_str());
            out.append("\n");
            assert(out@ =~= base + bounds_text(m, (v + 1) as nat));
            v += 1;
        }
        out.append("ENDATA");
        assert(out@ =~= mps_text(m));
        out
    }
}

} // verus!
