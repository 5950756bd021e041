//! JavaScript output for programs in continuation-passing form.
use vstd::prelude::*;
use crate::ast::{cexpr_at, cnode_printable, cnode_wf, conts_at, funs_at, printable_at, val_at, vals_at, BinOp, CExpr, CpsAst, ExprId, SCExpr, SVal, Value, ValueId};

verus! {

/// The parts joined with `sep` between each two of them.
pub open spec fn join(parts: Seq<Seq<char>>, sep: Seq<char>) -> Seq<char>
    decreases parts.len(),
{
    if parts.len() == 0 {
        Seq::empty()
    } else if parts.len() == 1 {
        parts[0]
    } else {
        join(parts.drop_last(), sep) + sep + parts.last()
    }
}

/// The text of a value.
pub open spec fn js_val(v: SVal) -> Seq<char> {
    match v {
        SVal::Var(n) => n,
        SVal::Label(l) => l,
        SVal::Num(x) => x,
        SVal::Str(s) => "\""@ + s + "\""@,
    }
}

/// The texts of values.
pub open spec fn js_vals(vs: Seq<SVal>) -> Seq<Seq<char>> {
    vs.map_values(|v: SVal| js_val(v))
}

/// The name of a variable.
pub open spec fn var_name(v: SVal) -> Seq<char> {
    match v {
        SVal::Var(n) => n,
        _ => Seq::empty(),
    }
}

/// The names of variables.
pub open spec fn var_names(vs: Seq<SVal>) -> Seq<Seq<char>> {
    vs.map_values(|v: SVal| var_name(v))
}

/// The JavaScript operator of a binary operator.
pub open spec fn binop_js(op: BinOp) -> Seq<char> {
    match op {
        BinOp::Plus => "+"@,
        BinOp::Minus => "-"@,
        BinOp::Times => "*"@,
        BinOp::Div => "/"@,
        BinOp::Eq => "==="@,
        BinOp::Neq => "!=="@,
        BinOp::Geq => ">="@,
        BinOp::Gt => ">"@,
        BinOp::Leq => "<="@,
        BinOp::Lt => "<"@,
    }
}

/// The JavaScript text of an expression.
pub open spec fn js(e: SCExpr) -> Seq<char>
    decreases e,
{
    match e {
        SCExpr::App(f, xs) => js_val(f) + "("@ + join(js_vals(xs), ", "@) + ")"@,
        SCExpr::Fix(fs, body) => join(js_funs(fs), "\n"@) + "\n"@ + js(*body),
        SCExpr::PrimOp(op, ins, outs, cs) => {
            let val = join(js_vals(ins), " "@ + binop_js(op) + " "@);
            if cs.len() == 2 {
                "if ("@ + val + ") { "@ + js(cs[1]) + " } else { "@ + js(cs[0]) + " }"@
            } else if cs.len() > 0 && outs.len() > 0 {
                "let "@ + var_name(outs[0]) + " = "@ + val + "\n"@ + js(cs[0]) + ";"@
            } else {
                Seq::empty()
            }
        },
        SCExpr::Switch(_, _) => "{}"@,
    }
}

/// The JavaScript definitions of functions.
pub open spec fn js_funs(fs: Seq<(SVal, Seq<SVal>, SCExpr)>) -> Seq<Seq<char>>
    decreases fs,
{
    if fs.len() == 0 {
        Seq::empty()
    } else {
        let f = fs.last();
        js_funs(fs.drop_last()).push(
            "function "@ + var_name(f.0) + "("@ + join(var_names(f.1), ", "@) + ") { "@ + js(f.2)
                + " }"@,
        )
    }
}


/// The texts of strings.
pub open spec fn views(v: Seq<String>) -> Seq<Seq<char>> {
    v.map_values(|s: String| s@)
}

/// The parts joined with `sep` between each two of them.
pub fn join_strings(parts: &Vec<String>, sep: &str) -> (r: String)
    ensures
        r@ == join(views(parts@), sep@),
{
    let mut r = String::new();
    let mut i: usize = 0;
    while i < parts.len()
        invariant
            i <= parts.len(),
            r@ == join(views(parts@).take(i as int), sep@),
        decreases parts.len() - i,
    {
        proof {
            let vs = views(parts@);
            assert(vs.take(i + 1).drop_last() =~= vs.take(i as int));
            assert(vs.take(i + 1).last() == parts@[i as int]@);
            if i == 0 {
                assert(vs.take(0) =~= Seq::<Seq<char>>::empty());
                assert(vs.take(1) =~= seq![parts@[0]@]);
            }
        }
        if i > 0 {
            r.append(sep);
        }
        r.append(parts[i].as_str());
        i = i + 1;
    }
    proof {
        assert(views(parts@).take(i as int) =~= views(parts@));
    }
    r
}

/// The text of the value `val`.
pub fn gen_value(ast: &CpsAst, val: ValueId) -> (r: String)
    requires
        val < ast.vals.len(),
    ensures
        r@ == js_val(val_at(ast.vals@, val as int)),
{
    match &ast.vals[val] {
        Value::Var(n) => n.clone(),
        Value::Label(l) => l.clone(),
        Value::Num(n) => n.clone(),
        Value::String(s) => {
            let mut r = String::from_str("\"");
            r.append(s.as_str());
            r.append("\"");
            r
        },
    }
}

/// The JavaScript operator of `op`.
pub fn gen_binop(op: BinOp) -> (r: String)
    ensures
        r@ == binop_js(op),
{
    match op {
        BinOp::Plus => String::from_str("+"),
        BinOp::Minus => String::from_str("-"),
        BinOp::Times => String::from_str("*"),
        BinOp::Div => String::from_str("/"),
        BinOp::Eq => String::from_str("==="),
        BinOp::Neq => String::from_str("!=="),
        BinOp::Geq => String::from_str(">="),
        BinOp::Gt => String::from_str(">"),
        BinOp::Leq => String::from_str("<="),
        BinOp::Lt => String::from_str("<"),
    }
}

/// The name of the variable `v`.
fn dest_var(ast: &CpsAst, v: ValueId) -> (r: String)
    requires
        v < ast.vals.len(),
        ast.vals@[v as int] is Var,
    ensures
        r@ == var_name(val_at(ast.vals@, v as int)),
{
    match &ast.vals[v] {
        Value::Var(n) => n.clone(),
        _ => String::new(),
    }
}

/// The texts of the values `xs`.
fn gen_values(ast: &CpsAst, xs: &Vec<ValueId>) -> (r: Vec<String>)
    requires
        forall|j: int| 0 <= j < xs@.len() ==> #[trigger] xs@[j] < ast.vals.len(),
    ensures
        views(r@) == js_vals(vals_at(ast.vals@, xs@)),
{
    let mut r: Vec<String> = Vec::new();
    let mut i: usize = 0;
    while i < xs.len()
        invariant
            i <= xs.len(),
            forall|j: int| 0 <= j < xs@.len() ==> #[trigger] xs@[j] < ast.vals.len(),
            views(r@) == js_vals(vals_at(ast.vals@, xs@)).take(i as int),
        decreases xs.len() - i,
    {
        let ghost before = r@;
        r.push(gen_value(ast, xs[i]));
        proof {
            assert(views(r@) =~= views(before).push(r@[i as int]@));
            assert(views(r@) =~= js_vals(vals_at(ast.vals@, xs@)).take(i + 1));
        }
        i = i + 1;
    }
    proof {
        assert(js_vals(vals_at(ast.vals@, xs@)).take(i as int) =~= js_vals(vals_at(ast.vals@, xs@)));
    }
    r
}

/// The names of the variables `xs`.
fn gen_names(ast: &CpsAst, xs: &Vec<ValueId>) -> (r: Vec<String>)
    requires
        forall|j: int| 0 <= j < xs@.len() ==> #[trigger] xs@[j] < ast.vals.len(),
        forall|j: int| 0 <= j < xs@.len() ==> ast.vals@[#[trigger] xs@[j] as int] is Var,
    ensures
        views(r@) == var_names(vals_at(ast.vals@, xs@)),
{
    let mut r: Vec<String> = Vec::new();
    let mut i: usize = 0;
    while i < xs.len()
        invariant
            i <= xs.len(),
            forall|j: int| 0 <= j < xs@.len() ==> #[trigger] xs@[j] < ast.vals.len(),
            forall|j: int| 0 <= j < xs@.len() ==> ast.vals@[#[trigger] xs@[j] as int] is Var,
            views(r@) == var_names(vals_at(ast.vals@, xs@)).take(i as int),
        decreases xs.len() - i,
    {
        let ghost before = r@;
        r.push(dest_var(ast, xs[i]));
        proof {
            assert(views(r@) =~= views(before).push(r@[i as int]@));
            assert(views(r@) =~= var_names(vals_at(ast.vals@, xs@)).take(i + 1));
        }
        i = i + 1;
    }
    proof {
        assert(var_names(vals_at(ast.vals@, xs@)).take(i as int) =~= var_names(vals_at(ast.vals@, xs@)));
    }
    r
}


/// The JavaScript text of the expression `id`.
pub fn gen_cexpr(ast: &CpsAst, id: ExprId) -> (r: String)
    requires
        printable_at(ast.exprs@, ast.vals@, id as int),
    ensures
        r@ == js(cexpr_at(ast.exprs@, ast.vals@, id as int)),
    decreases id, 1int,
{
    proof {
        assert(cnode_wf(ast.exprs@[id as int], id as int, ast.vals@.len() as int));
        assert(cnode_printable(ast.exprs@[id as int], ast.vals@));
    }
    match &ast.exprs[id] {
        CExpr::App(f, xs) => {
            let mut out = gen_value(ast, *f);
            out.append("(");
            let parts = gen_values(ast, xs);
            let joined = join_strings(&parts, ", ");
            out.append(joined.as_str());
            out.append(")");
            out
        },
        CExpr::Fix(vs, body) => {
            let texts = gen_funs(ast, id, vs);
            let mut out = join_strings(&texts, "\n");
            out.append("\n");
            let b = gen_cexpr(ast, *body);
            out.append(b.as_str());
            out
        },
        CExpr::PrimOp(op, inputs, outputs, cs) => {
            let parts = gen_values(ast, inputs);
            let mut sep = String::from_str(" ");
            let o = gen_binop(*op);
            sep.append(o.as_str());
            sep.append(" ");
            let val = join_strings(&parts, sep.as_str());
            proof {
                let cl = conts_at(ast.exprs@, ast.vals@, cs@, id as int);
                assert(cl.len() == cs@.len()) by {
                    lemma_conts_len(ast.exprs@, ast.vals@, cs@, id as int);
                }
                if cs@.len() > 0 {
                    lemma_conts_index(ast.exprs@, ast.vals@, cs@, id as int, 0);
                }
                if cs@.len() > 1 {
                    lemma_conts_index(ast.exprs@, ast.vals@, cs@, id as int, 1);
                }
            }
            if cs.len() == 2 {
                let mut out = String::from_str("if (");
                out.append(val.as_str());
                out.append(") { ");
                let t = gen_cexpr(ast, cs[1]);
                out.append(t.as_str());
                out.append(" } else { ");
                let e = gen_cexpr(ast, cs[0]);
                out.append(e.as_str());
                out.append(" }");
                out
            } else {
                let mut out = String::from_str("let ");
                let name = dest_var(ast, outputs[0]);
                out.append(name.as_str());
                out.append(" = ");
                out.append(val.as_str());
                out.append("\n");
                let c = gen_cexpr(ast, cs[0]);
                out.append(c.as_str());
                out.append(";");
                out
            }
        },
        CExpr::Switch(_, _) => String::from_str("{}"),
    }
}

pub proof fn lemma_conts_len(exprs: Seq<CExpr>, vals: Seq<Value>, cs: Seq<usize>, id: int)
    ensures
        conts_at(exprs, vals, cs, id).len() == cs.len(),
    decreases cs.len(),
{
    if cs.len() > 0 {
        lemma_conts_len(exprs, vals, cs.drop_last(), id);
    }
}

pub proof fn lemma_conts_index(exprs: Seq<CExpr>, vals: Seq<Value>, cs: Seq<usize>, id: int, j: int)
    requires
        0 <= j < cs.len(),
        forall|i: int| 0 <= i < cs.len() ==> #[trigger] cs[i] < id,
    ensures
        conts_at(exprs, vals, cs, id)[j] == cexpr_at(exprs, vals, cs[j] as int),
    decreases cs.len(),
{
    lemma_conts_len(exprs, vals, cs.drop_last(), id);
    if j < cs.len() - 1 {
        lemma_conts_index(exprs, vals, cs.drop_last(), id, j);
    }
}

/// The definitions of the functions `vs` of the node `id`.
fn gen_funs(ast: &CpsAst, id: ExprId, vs: &Vec<(ValueId, Vec<ValueId>, ExprId)>) -> (r: Vec<String>)
    requires
        printable_at(ast.exprs@, ast.vals@, id as int),
        ast.exprs@[id as int] matches CExpr::Fix(fs, _) && fs == *vs,
    ensures
        views(r@) == js_funs(funs_at(ast.exprs@, ast.vals@, vs@, id as int)),
    decreases id, 0int,
{
    proof {
        assert(cnode_wf(ast.exprs@[id as int], id as int, ast.vals@.len() as int));
        assert(cnode_printable(ast.exprs@[id as int], ast.vals@));
    }
    let mut r: Vec<String> = Vec::new();
    let mut i: usize = 0;
    proof {
        assert(vs@.take(0) =~= Seq::<(usize, Vec<usize>, usize)>::empty());
    }
    while i < vs.len()
        invariant
            i <= vs.len(),
            printable_at(ast.exprs@, ast.vals@, id as int),
            id < ast.exprs.len(),
            cnode_wf(ast.exprs@[id as int], id as int, ast.vals@.len() as int),
            cnode_printable(ast.exprs@[id as int], ast.vals@),
            ast.exprs@[id as int] matches CExpr::Fix(fs, _) && fs == *vs,
            r@.len() == i,
            views(r@) == js_funs(funs_at(ast.exprs@, ast.vals@, vs@.take(i as int), id as int)),
        decreases vs.len() - i,
    {
        let (f, params, b) = &vs[i];
        proof {
            assert(vs@[i as int] == (*f, *params, *b));
        }
        let mut text = String::from_str("function ");
        let name = dest_var(ast, *f);
        text.append(name.as_str());
        text.append("(");
        let names = gen_names(ast, params);
        let joined = join_strings(&names, ", ");
        text.append(joined.as_str());
        text.append(") { ");
        let body_text = gen_cexpr(ast, *b);
        text.append(body_text.as_str());
        text.append(" }");
        let ghost before = r@;
        r.push(text);
        proof {
            let t = vs@.take(i + 1);
            assert(t.drop_last() =~= vs@.take(i as int));
            assert(t.last() == vs@[i as int]);
            let ft = funs_at(ast.exprs@, ast.vals@, t, id as int);
            assert(ft.drop_last() =~= funs_at(ast.exprs@, ast.vals@, vs@.take(i as int), id as int));
            assert(views(r@) =~= views(before).push(r@[i as int]@));
        }
        i = i + 1;
    }
    proof {
        assert(vs@.take(i as int) =~= vs@);
    }
    r
}


/// The whole program: strict mode, then the expression `id`.
pub fn gen_program(ast: &CpsAst, id: ExprId) -> (r: String)
    requires
        printable_at(ast.exprs@, ast.vals@, id as int),
    ensures
        r@ == "\"use strict\";\n"@ + js(cexpr_at(ast.exprs@, ast.vals@, id as int)),
{
    let mut out = String::from_str("\"use strict\";\n");
    let body = gen_cexpr(ast, id);
    out.append(body.as_str());
    out
}

} // verus!
