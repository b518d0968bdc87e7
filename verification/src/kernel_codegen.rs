//! Generating the C++ state tables that wire the configured processes into
//! the kernel: a small C++ statement model with an exact rendering.

use vstd::prelude::*;
use vstd::string::StringExecFns;

use crate::error::Error;
use crate::runtypes;
use crate::strutil::{dec_digits, hex_str, join_strings, spec_join, u64_to_dec, u64_to_hex};

verus! {

/// A C++ expression, as far as the generated state tables need.
pub enum Expression {
    LiteralUnsigned(u64),
    LiteralString(String),
    Identifier(String),
    AddressOf(Box<Expression>),
}

/// The C++ source text of an expression. Unsigned literals are rendered in
/// hexadecimal.
pub open spec fn render_expr(e: Expression) -> Seq<char>
    decreases e,
{
    match e {
        Expression::LiteralUnsigned(i) => hex_str(i as int),
        Expression::Identifier(i) => i@,
        Expression::AddressOf(inner) => "&("@ + render_expr(*inner) + ")"@,
        Expression::LiteralString(s) => "\""@ + s@ + "\""@,
    }
}

/// The rendered texts of a list of expressions, in order.
pub open spec fn render_exprs(es: Seq<Expression>) -> Seq<Seq<char>> {
    Seq::new(es.len(), |i: int| render_expr(es[i]))
}

impl Expression {
    /// The C++ source text of this expression.
    pub fn render(&self) -> (r: String)
        ensures
            r@ == render_expr(*self),
        decreases *self,
    {
        match self {
            Expression::LiteralUnsigned(i) => u64_to_hex(*i),
            Expression::Identifier(i) => i.clone(),
            Expression::AddressOf(inner) => {
                let mut s: String = "&(".to_owned();
                s.append(inner.render().as_str());
                s.append(")");
                proof {
                    assert(s@ =~= render_expr(*self));
                }
                s
            },
            Expression::LiteralString(ls) => {
                let mut s: String = "\"".to_owned();
                s.append(ls.as_str());
                s.append("\"");
                proof {
                    assert(s@ =~= render_expr(*self));
                }
                s
            },
        }
    }
}

/// A C++ statement of the generated state tables.
pub enum Statement {
    PragmaOnce,
    Include { header: String },
    ArrayFwdDeclaration { ctype: String, name: String, count: usize },
    ArrayDefinition { ctype: String, name: String, init_args: Vec<Expression> },
    VariableDefinition { ctype: String, name: String, init_args: Vec<Expression> },
    AnonNamespace { statements: Vec<Statement> },
}

/// The C++ source text of a statement.
pub open spec fn render_stmt(s: Statement) -> Seq<char>
    decreases s,
    via render_stmt_decreases
{
    match s {
        Statement::PragmaOnce => "#pragma once"@,
        Statement::Include { header } => "#include \""@ + header@ + "\""@,
        Statement::ArrayFwdDeclaration { ctype, name, count } => "extern "@ + ctype@
            + " "@ + name@ + "["@ + dec_digits(count as int) + "];"@,
        Statement::ArrayDefinition { ctype, name, init_args } => ctype@ + " "@ + name@
            + "["@ + dec_digits(init_args@.len() as int) + "] {"@ + spec_join(
            render_exprs(init_args@),
            ", "@,
        ) + "};"@,
        Statement::VariableDefinition { ctype, name, init_args } => ctype@ + " "@ + name@
            + " {"@ + spec_join(render_exprs(init_args@), ", "@) + "};"@,
        Statement::AnonNamespace { statements } => "namespace {\n"@ + spec_join(
            render_stmts(statements@),
            "\n"@,
        ) + "\n}"@,
    }
}

/// The rendered texts of a list of statements, in order.
pub open spec fn render_stmts(ss: Seq<Statement>) -> Seq<Seq<char>>
    decreases ss,
    via render_stmts_decreases
{
    if ss.len() == 0 {
        Seq::empty()
    } else {
        seq![render_stmt(ss[0])] + render_stmts(ss.drop_first())
    }
}

#[via_fn]
proof fn render_stmts_decreases(ss: Seq<Statement>) {
    if ss.len() > 0 {
        vstd::seq::axiom_seq_index_decreases(ss, 0);
        assert(decreases_to!(ss => ss.drop_first()));
    }
}

/// Each element of the rendered list is the rendering of its statement.
proof fn lemma_render_stmts_index(ss: Seq<Statement>, i: int)
    requires
        0 <= i < ss.len(),
    ensures
        render_stmts(ss).len() == ss.len(),
        render_stmts(ss)[i] == render_stmt(ss[i]),
    decreases ss.len(),
{
    lemma_render_stmts_len(ss);
    if i > 0 {
        lemma_render_stmts_index(ss.drop_first(), i - 1);
    }
}

proof fn lemma_render_stmts_len(ss: Seq<Statement>)
    ensures
        render_stmts(ss).len() == ss.len(),
    decreases ss.len(),
{
    if ss.len() > 0 {
        lemma_render_stmts_len(ss.drop_first());
    }
}

#[via_fn]
proof fn render_stmt_decreases(s: Statement) {
    match s {
        Statement::AnonNamespace { statements } => {
            assert(decreases_to!(s => statements@));
        },
        _ => {},
    }
}

/// Render each expression of a list.
fn render_args(es: &Vec<Expression>) -> (r: Vec<String>)
    ensures
        r@.map_values(|p: String| p@) == render_exprs(es@),
{
    let mut out: Vec<String> = Vec::new();
    let mut i: usize = 0;
    while i < es.len()
        invariant
            i <= es@.len(),
            out@.len() == i,
            forall|j: int| 0 <= j < i ==> (#[trigger] out@[j])@ == render_expr(es@[j]),
        decreases es@.len() - i,
    {
        out.push(es[i].render());
        i = i + 1;
    }
    proof {
        assert(out@.map_values(|p: String| p@) =~= render_exprs(es@));
    }
    out
}

impl Statement {
    /// The C++ source text of this statement.
    pub fn render(&self) -> (r: String)
        ensures
            r@ == render_stmt(*self),
        decreases *self,
    {
        match self {
            Statement::PragmaOnce => "#pragma once".to_owned(),
            Statement::Include { header } => {
                let mut s: String = "#include \"".to_owned();
                s.append(header.as_str());
                s.append("\"");
                proof {
                    assert(s@ =~= render_stmt(*self));
                }
                s
            },
            Statement::ArrayFwdDeclaration { ctype, name, count } => {
                let mut s: String = "extern ".to_owned();
                s.append(ctype.as_str());
                s.append(" ");
                s.append(name.as_str());
                s.append("[");
                s.append(u64_to_dec(*count as u64).as_str());
                s.append("];");
                proof {
                    assert(s@ =~= render_stmt(*self));
                }
                s
            },
            Statement::ArrayDefinition { ctype, name, init_args } => {
                let args = render_args(init_args);
                let mut s: String = ctype.clone();
                s.append(" ");
                s.append(name.as_str());
                s.append("[");
                s.append(u64_to_dec(init_args.len() as u64).as_str());
                s.append("] {");
                s.append(join_strings(&args, ", ").as_str());
                s.append("};");
                proof {
                    assert(s@ =~= render_stmt(*self));
                }
                s
            },
            Statement::VariableDefinition { ctype, name, init_args } => {
                let args = render_args(init_args);
                let mut s: String = ctype.clone();
                s.append(" ");
                s.append(name.as_str());
                s.append(" {");
                s.append(join_strings(&args, ", ").as_str());
                s.append("};");
                proof {
                    assert(s@ =~= render_stmt(*self));
                }
                s
            },
            Statement::AnonNamespace { statements } => {
                let mut parts: Vec<String> = Vec::new();
                let mut i: usize = 0;
                while i < statements.len()
                    invariant
                        *self is AnonNamespace,
                        (*self)->AnonNamespace_statements@ == statements@,
                        i <= statements@.len(),
                        parts@.len() == i,
                        forall|j: int| 0 <= j < i ==> (#[trigger] parts@[j])@ == render_stmt(
                            statements@[j],
                        ),
                    decreases statements@.len() - i,
                {
                    proof {
                        assert(decreases_to!(*self => (*self)->AnonNamespace_statements@));
                        assert((*self)->AnonNamespace_statements@ == statements@);
                        vstd::seq::axiom_seq_index_decreases(statements@, i as int);
                    }
                    let rendered = statements[i].render();
                    parts.push(rendered);
                    i = i + 1;
                }
                let mut s: String = "namespace {\n".to_owned();
                proof {
                    assert forall|j: int| 0 <= j < statements@.len() implies render_stmts(
                        statements@,
                    )[j] == render_stmt(statements@[j]) by {
                        lemma_render_stmts_index(statements@, j);
                    }
                    lemma_render_stmts_len(statements@);
                    assert(parts@.map_values(|p: String| p@) =~= render_stmts(statements@));
                }
                s.append(join_strings(&parts, "\n").as_str());
                s.append("\n}");
                proof {
                    assert(s@ =~= render_stmt(*self));
                }
                s
            },
        }
    }
}

/// A source of unique C++ identifiers: `id_0`, `id_1`, and so on.
pub struct IdentifierIterator {
    pub id: usize,
}

impl IdentifierIterator {
    pub fn new() -> (r: IdentifierIterator)
        ensures
            r.id == 0,
    {
        IdentifierIterator { id: 0 }
    }

    /// The next fresh identifier.
    pub fn next_id(&mut self) -> (r: String)
        requires
            old(self).id < usize::MAX,
        ensures
            r@ == "id_"@ + dec_digits(old(self).id as int),
            final(self).id == old(self).id + 1,
    {
        let mut s: String = "id_".to_owned();
        s.append(u64_to_dec(self.id as u64).as_str());
        self.id = self.id + 1;
        s
    }
}

/// The expression taking the address of a named object.
pub fn pointer_to(s: &str) -> (r: Expression)
    ensures
        render_expr(r) == "&("@ + s@ + ")"@,
{
    let ident = Expression::Identifier(s.to_owned());
    let ghost gident = ident;
    let r = Expression::AddressOf(Box::new(ident));
    proof {
        assert(render_expr(gident) == s@);
        assert(render_expr(r) =~= "&("@ + render_expr(gident) + ")"@);
    }
    r
}

/// The entry point patched for a process's initial thread.
pub fn process_entry(_process: &runtypes::Process) -> (r: u64)
    ensures
        r == 0xDEADBEEF,
{
    // A placeholder: the kernel reads the real entry point from its patched
    // USER_PCS table at boot.
    0xDEADBEEF
}

/// The stack pointer patched for a process's initial thread.
pub fn process_stack_ptr(_process: &runtypes::Process) -> (r: u64)
    ensures
        r == 0xCAFED00D,
{
    // A placeholder, like the entry point above.
    0xCAFED00D
}

/// The generated identifier with the given number.
pub open spec fn id_name(k: int) -> Seq<char> {
    "id_"@ + dec_digits(k)
}

/// The C++ text of the five statements that create one process's kernel
/// objects, with identifiers numbered from `id0`: the exit object, the
/// kernel log carrying the process name, the capability set over both, the
/// process with its identifier, and the thread pointing at the process with
/// the placeholder entry and stack values.
pub open spec fn kobject_renders(id0: int, pid: u64, pname: Seq<char>) -> Seq<Seq<char>> {
    seq![
        "exit_kobject "@ + id_name(id0 + 1) + " {};"@,
        "klog_kobject "@ + id_name(id0 + 2) + " {"@ + "\""@ + pname + "\""@ + "};"@,
        "kobject * const "@ + id_name(id0 + 3) + "["@ + dec_digits(2) + "] {"@ + "&("@ + id_name(
            id0 + 1,
        ) + ")"@ + ", "@ + "&("@ + id_name(id0 + 2) + ")"@ + "};"@,
        "process "@ + id_name(id0 + 4) + " {"@ + hex_str(pid as int) + ", "@ + "&("@ + id_name(
            id0 + 3,
        ) + ")"@ + "};"@,
        "thread "@ + id_name(id0) + " {"@ + "&("@ + id_name(id0 + 4) + ")"@ + ", "@ + hex_str(
            0xDEADBEEF,
        ) + ", "@ + hex_str(0xCAFED00D) + "};"@,
    ]
}

/// The rendered text of a variable definition without arguments.
proof fn lemma_render_exit(st: Statement, id0: int)
    requires
        st is VariableDefinition,
        st->VariableDefinition_ctype@ == "exit_kobject"@,
        st->VariableDefinition_name@ == id_name(id0 + 1),
        st->VariableDefinition_init_args@.len() == 0,
    ensures
        render_stmt(st) == "exit_kobject "@ + id_name(id0 + 1) + " {};"@,
{
    reveal_strlit("exit_kobject");
    reveal_strlit("exit_kobject ");
    reveal_strlit(" ");
    reveal_strlit(" {");
    reveal_strlit(" {};");
    reveal_strlit("};");
    assert(render_exprs(st->VariableDefinition_init_args@) =~= Seq::<Seq<char>>::empty());
    assert(render_stmt(st) =~= "exit_kobject "@ + id_name(id0 + 1) + " {};"@);
}

/// The rendered text of the kernel-log definition.
proof fn lemma_render_klog(st: Statement, id0: int, pname: Seq<char>)
    requires
        st is VariableDefinition,
        st->VariableDefinition_ctype@ == "klog_kobject"@,
        st->VariableDefinition_name@ == id_name(id0 + 2),
        st->VariableDefinition_init_args@.len() == 1,
        render_expr(st->VariableDefinition_init_args@[0]) == "\""@ + pname + "\""@,
    ensures
        render_stmt(st) == "klog_kobject "@ + id_name(id0 + 2) + " {"@ + "\""@ + pname + "\""@
            + "};"@,
{
    reveal_strlit("klog_kobject");
    reveal_strlit("klog_kobject ");
    reveal_strlit(" ");
    reveal_strlit(" {");
    reveal_strlit("};");
    let args = st->VariableDefinition_init_args@;
    assert(render_exprs(args) =~= seq![render_expr(args[0])]);
    assert(spec_join(render_exprs(args), ", "@) == render_expr(args[0]));
    assert(render_stmt(st) =~= "klog_kobject "@ + id_name(id0 + 2) + " {"@ + "\""@ + pname
        + "\""@ + "};"@);
}

/// The rendered text of the two-capability set.
proof fn lemma_render_capset(st: Statement, id0: int)
    requires
        st is ArrayDefinition,
        st->ArrayDefinition_ctype@ == "kobject * const"@,
        st->ArrayDefinition_name@ == id_name(id0 + 3),
        st->ArrayDefinition_init_args@.len() == 2,
        render_expr(st->ArrayDefinition_init_args@[0]) == "&("@ + id_name(id0 + 1) + ")"@,
        render_expr(st->ArrayDefinition_init_args@[1]) == "&("@ + id_name(id0 + 2) + ")"@,
    ensures
        render_stmt(st) == "kobject * const "@ + id_name(id0 + 3) + "["@ + dec_digits(2) + "] {"@
            + "&("@ + id_name(id0 + 1) + ")"@ + ", "@ + "&("@ + id_name(id0 + 2) + ")"@ + "};"@,
{
    reveal_strlit("kobject * const");
    reveal_strlit("kobject * const ");
    reveal_strlit(" ");
    reveal_strlit("[");
    reveal_strlit("] {");
    reveal_strlit("};");
    let args = st->ArrayDefinition_init_args@;
    let parts = seq![render_expr(args[0]), render_expr(args[1])];
    assert(render_exprs(args) =~= parts);
    assert(parts.drop_last() =~= seq![render_expr(args[0])]);
    assert(spec_join(parts.drop_last(), ", "@) == render_expr(args[0]));
    assert(spec_join(parts, ", "@) == render_expr(args[0]) + ", "@ + render_expr(args[1]));
    assert(render_stmt(st) =~= "kobject * const "@ + id_name(id0 + 3) + "["@ + dec_digits(2)
        + "] {"@ + "&("@ + id_name(id0 + 1) + ")"@ + ", "@ + "&("@ + id_name(id0 + 2) + ")"@
        + "};"@);
}

/// The rendered text of the process definition.
proof fn lemma_render_process(st: Statement, id0: int, pid: u64)
    requires
        st is VariableDefinition,
        st->VariableDefinition_ctype@ == "process"@,
        st->VariableDefinition_name@ == id_name(id0 + 4),
        st->VariableDefinition_init_args@.len() == 2,
        render_expr(st->VariableDefinition_init_args@[0]) == hex_str(pid as int),
        render_expr(st->VariableDefinition_init_args@[1]) == "&("@ + id_name(id0 + 3) + ")"@,
    ensures
        render_stmt(st) == "process "@ + id_name(id0 + 4) + " {"@ + hex_str(pid as int) + ", "@
            + "&("@ + id_name(id0 + 3) + ")"@ + "};"@,
{
    reveal_strlit("process");
    reveal_strlit("process ");
    reveal_strlit(" ");
    reveal_strlit(" {");
    reveal_strlit("};");
    let args = st->VariableDefinition_init_args@;
    let parts = seq![render_expr(args[0]), render_expr(args[1])];
    assert(render_exprs(args) =~= parts);
    assert(parts.drop_last() =~= seq![render_expr(args[0])]);
    assert(spec_join(parts.drop_last(), ", "@) == render_expr(args[0]));
    assert(spec_join(parts, ", "@) == render_expr(args[0]) + ", "@ + render_expr(args[1]));
    assert(render_stmt(st) =~= "process "@ + id_name(id0 + 4) + " {"@ + hex_str(pid as int)
        + ", "@ + "&("@ + id_name(id0 + 3) + ")"@ + "};"@);
}

/// The rendered text of the thread definition.
proof fn lemma_render_thread(st: Statement, id0: int)
    requires
        st is VariableDefinition,
        st->VariableDefinition_ctype@ == "thread"@,
        st->VariableDefinition_name@ == id_name(id0),
        st->VariableDefinition_init_args@.len() == 3,
        render_expr(st->VariableDefinition_init_args@[0]) == "&("@ + id_name(id0 + 4) + ")"@,
        render_expr(st->VariableDefinition_init_args@[1]) == hex_str(0xDEADBEEF),
        render_expr(st->VariableDefinition_init_args@[2]) == hex_str(0xCAFED00D),
    ensures
        render_stmt(st) == "thread "@ + id_name(id0) + " {"@ + "&("@ + id_name(id0 + 4) + ")"@
            + ", "@ + hex_str(0xDEADBEEF) + ", "@ + hex_str(0xCAFED00D) + "};"@,
{
    reveal_strlit("thread");
    reveal_strlit("thread ");
    reveal_strlit(" ");
    reveal_strlit(" {");
    reveal_strlit("};");
    let args = st->VariableDefinition_init_args@;
    assert(render_exprs(args) =~= seq![
        render_expr(args[0]),
        render_expr(args[1]),
        render_expr(args[2]),
    ]);
    crate::strutil::lemma_join3(
        render_expr(args[0]),
        render_expr(args[1]),
        render_expr(args[2]),
        ", "@,
    );
    assert(render_stmt(st) =~= "thread "@ + id_name(id0) + " {"@ + "&("@ + id_name(id0 + 4)
        + ")"@ + ", "@ + hex_str(0xDEADBEEF) + ", "@ + hex_str(0xCAFED00D) + "};"@);
}

/// The name of the thread object created for one process, and the statements
/// that create the kernel objects backing the process: an exit object, a
/// kernel log, the capability set over both, the process and its thread.
#[verifier::rlimit(100)]
#[verifier::spinoff_prover]
pub fn process_kobjects(
    id_iter: &mut IdentifierIterator,
    pid: u64,
    process: &runtypes::Process,
) -> (r: (String, Vec<Statement>))
    requires
        old(id_iter).id + 5 <= usize::MAX,
    ensures
        final(id_iter).id == old(id_iter).id + 5,
        r.0@ == id_name(old(id_iter).id as int),
        r.1@.len() == 5,
        forall|j: int| 0 <= j < 5 ==> render_stmt(#[trigger] r.1@[j]) == kobject_renders(
            old(id_iter).id as int,
            pid,
            process.name@,
        )[j],
{
    let thread_name = id_iter.next_id();
    let exit_name = id_iter.next_id();
    let klog_name = id_iter.next_id();
    let capset_name = id_iter.next_id();
    let proc_name = id_iter.next_id();

    let mut stmts: Vec<Statement> = Vec::new();
    stmts.push(
        Statement::VariableDefinition {
            ctype: "exit_kobject".to_owned(),
            name: exit_name.clone(),
            init_args: Vec::new(),
        },
    );
    let mut klog_args: Vec<Expression> = Vec::new();
    klog_args.push(Expression::LiteralString(process.name.clone()));
    stmts.push(
        Statement::VariableDefinition {
            ctype: "klog_kobject".to_owned(),
            name: klog_name.clone(),
            init_args: klog_args,
        },
    );
    let mut capset_args: Vec<Expression> = Vec::new();
    capset_args.push(pointer_to(exit_name.as_str()));
    capset_args.push(pointer_to(klog_name.as_str()));
    stmts.push(
        Statement::ArrayDefinition {
            ctype: "kobject * const".to_owned(),
            name: capset_name.clone(),
            init_args: capset_args,
        },
    );
    let mut proc_args: Vec<Expression> = Vec::new();
    proc_args.push(Expression::LiteralUnsigned(pid));
    proc_args.push(pointer_to(capset_name.as_str()));
    stmts.push(
        Statement::VariableDefinition {
            ctype: "process".to_owned(),
            name: proc_name.clone(),
            init_args: proc_args,
        },
    );
    let mut thread_args: Vec<Expression> = Vec::new();
    thread_args.push(pointer_to(proc_name.as_str()));
    thread_args.push(Expression::LiteralUnsigned(process_entry(process)));
    thread_args.push(Expression::LiteralUnsigned(process_stack_ptr(process)));
    stmts.push(
        Statement::VariableDefinition {
            ctype: "thread".to_owned(),
            name: thread_name.clone(),
            init_args: thread_args,
        },
    );
    proof {
        let id0 = old(id_iter).id as int;
        let expect = kobject_renders(id0, pid, process.name@);
        lemma_render_exit(stmts@[0], id0);
        lemma_render_klog(stmts@[1], id0, process.name@);
        lemma_render_capset(stmts@[2], id0);
        lemma_render_process(stmts@[3], id0, pid);
        lemma_render_thread(stmts@[4], id0);
    }
    (thread_name, stmts)
}

/// Generate the C++ source that defines the kernel objects of every process
/// and the global thread table. Processes get ascending process identifiers
/// in configuration order.
pub fn generate_cpp(system: &runtypes::Configuration) -> (r: Result<String, Error>)
    requires
        system.processes@.len() * 5 < usize::MAX,
    ensures
        r is Ok,
{
    let mut id_iter = IdentifierIterator::new();
    let mut proc_stm: Vec<Statement> = Vec::new();
    let mut thread_names: Vec<String> = Vec::new();
    let mut pid: usize = 0;
    while pid < system.processes.len()
        invariant
            system.processes@.len() * 5 < usize::MAX,
            pid <= system.processes@.len(),
            id_iter.id == pid * 5,
            thread_names@.len() == pid,
        decreases system.processes@.len() - pid,
    {
        let (tname, mut stmts) = process_kobjects(&mut id_iter, pid as u64, &system.processes[pid]);
        proc_stm.append(&mut stmts);
        thread_names.push(tname);
        pid = pid + 1;
    }
    let mut thread_args: Vec<Expression> = Vec::new();
    let mut k: usize = 0;
    while k < thread_names.len()
        invariant
            k <= thread_names@.len(),
        decreases thread_names@.len() - k,
    {
        thread_args.push(pointer_to(thread_names[k].as_str()));
        k = k + 1;
    }
    let mut parts: Vec<String> = Vec::new();
    parts.push(
        (Statement::Include { header: "state.hpp".to_owned() }).render(),
    );
    parts.push(
        (Statement::Include { header: "kobject_all.hpp".to_owned() }).render(),
    );
    parts.push(
        (Statement::AnonNamespace { statements: proc_stm }).render(),
    );
    parts.push(
        (Statement::ArrayDefinition {
            name: "threads".to_owned(),
            ctype: "thread * const".to_owned(),
            init_args: thread_args,
        }).render(),
    );
    let mut out = join_strings(&parts, "\n");
    out.append("\n");
    Ok(out)
}

/// Generate the header that declares the global thread table, with one entry
/// per process.
pub fn generate_hpp(system: &runtypes::Configuration) -> (r: Result<String, Error>)
    ensures
        match r {
            Ok(s) => s@ == "#pragma once"@ + "\n"@ + "#include \"thread.hpp\""@ + "\n"@
                + "extern "@ + "thread * const"@ + " "@ + "threads"@ + "["@ + dec_digits(
                system.processes@.len() as int,
            ) + "];"@ + "\n"@,
            Err(_) => false,
        },
{
    let mut parts: Vec<String> = Vec::new();
    parts.push((Statement::PragmaOnce).render());
    parts.push(
        (Statement::Include { header: "thread.hpp".to_owned() }).render(),
    );
    parts.push(
        (Statement::ArrayFwdDeclaration {
            ctype: "thread * const".to_owned(),
            name: "threads".to_owned(),
            count: system.processes.len(),
        }).render(),
    );
    let mut out = join_strings(&parts, "\n");
    out.append("\n");
    proof {
        reveal_strlit("#include \"");
        reveal_strlit("thread.hpp");
        reveal_strlit("\"");
        reveal_strlit("#include \"thread.hpp\"");
        let p0 = "#pragma once"@;
        let p1 = "#include \""@ + "thread.hpp"@ + "\""@;
        let p2 = "extern "@ + "thread * const"@ + " "@ + "threads"@ + "["@ + dec_digits(
            system.processes@.len() as int,
        ) + "];"@;
        assert(parts@.map_values(|p: String| p@) =~= seq![p0, p1, p2]);
        crate::strutil::lemma_join3(p0, p1, p2, "\n"@);
        assert(out@ =~= "#pragma once"@ + "\n"@ + "#include \"thread.hpp\""@ + "\n"@
            + "extern "@ + "thread * const"@ + " "@ + "threads"@ + "["@ + dec_digits(
            system.processes@.len() as int,
        ) + "];"@ + "\n"@);
    }
    Ok(out)
}

} // verus!
