use vstd::prelude::*;

use crate::model::{ConstrType, ConstrView, ModelView, VarView};
use crate::text::{int_text, space_pad};

verus! {

/// A comment line for a description, if there is one.
pub open spec fn desc_line(d: Option<Seq<char>>) -> Seq<char> {
    match d {
        Some(s) => "* "@ + s + "\n"@,
        None => Seq::empty(),
    }
}

pub open spec fn type_code(t: ConstrType) -> Seq<char> {
    match t {
        ConstrType::Equal => "E"@,
        ConstrType::LessEqual => "L"@,
        ConstrType::GreaterEqual => "G"@,
    }
}

/// The line of a constraint in the ROWS section.
pub open spec fn row_line(c: ConstrView) -> Seq<char> {
    desc_line(c.desc) + " "@ + space_pad(type_code(c.typ), 3) + c.name + "\n"@
}

/// One line of the COLUMNS section: a variable's coefficient in one row.
pub open spec fn column_line(var: Seq<char>, row: Seq<char>, coe: i64) -> Seq<char> {
    "    "@ + space_pad(var, 10) + space_pad(row, 10) + int_text(coe as int) + "\n"@
}

/// The COLUMNS lines of the first `n` back-references of variable `x`.
pub open spec fn entry_lines(m: ModelView, x: VarView, n: nat) -> Seq<char>
    decreases n,
{
    if n == 0 {
        Seq::empty()
    } else {
        let (c, coe) = x.nonzeros[n - 1];
        entry_lines(m, x, (n - 1) as nat) + column_line(x.name, m.constrs[c as int].name, coe)
    }
}

/// The COLUMNS lines of variable `x`: its objective coefficient, if set, then one line per
/// back-reference in recording order.
pub open spec fn var_lines(m: ModelView, x: VarView) -> Seq<char> {
    desc_line(x.desc) + match x.obj {
        Some(c) => column_line(x.name, "OBJECTIV"@, c),
        None => Seq::empty(),
    } + entry_lines(m, x, x.nonzeros.len())
}

pub open spec fn rhs_line(c: ConstrView) -> Seq<char> {
    "    "@ + space_pad("________"@, 10) + space_pad(c.name, 10) + int_text(c.rhs as int) + "\n"@
}

pub open spec fn bound_line(x: VarView) -> Seq<char> {
    " "@ + space_pad("BV"@, 3) + space_pad("________"@, 10) + x.name + "\n"@
}

pub open spec fn rows_text(m: ModelView, n: nat) -> Seq<char>
    decreases n,
{
    if n == 0 {
        Seq::empty()
    } else {
        rows_text(m, (n - 1) as nat) + row_line(m.constrs[n - 1])
    }
}

pub open spec fn columns_text(m: ModelView, n: nat) -> Seq<char>
    decreases n,
{
    if n == 0 {
        Seq::empty()
    } else {
        columns_text(m, (n - 1) as nat) + var_lines(m, m.vars[n - 1])
    }
}

pub open spec fn rhs_text(m: ModelView, n: nat) -> Seq<char>
    decreases n,
{
    if n == 0 {
        Seq::empty()
    } else {
        rhs_text(m, (n - 1) as nat) + rhs_line(m.constrs[n - 1])
    }
}

pub open spec fn bounds_text(m: ModelView, n: nat) -> Seq<char>
    decreases n,
{
    if n == 0 {
        Seq::empty()
    } else {
        bounds_text(m, (n - 1) as nat) + bound_line(m.vars[n - 1])
    }
}

/// The header: the problem name and the objective row.
pub open spec fn head_text(m: ModelView) -> Seq<char> {
    space_pad("NAME"@, 14) + m.name + "\n"@ + "ROWS\n"@ + " "@ + space_pad("N"@, 3) + "OBJECTIV"@
        + "\n"@
}

/// The model in the fixed-column exchange format, sections in order, each item in
/// registration order.
pub open spec fn mps_text(m: ModelView) -> Seq<char> {
    head_text(m) + rows_text(m, m.constrs.len()) + "COLUMNS\n"@ + columns_text(m, m.vars.len())
        + "RHS\n"@ + rhs_text(m, m.constrs.len()) + "BOUNDS\n"@ + bounds_text(m, m.vars.len())
        + "ENDATA"@
}

} // verus!
