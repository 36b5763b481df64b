//! The variable-flow resolver and the bytecode generator: lowering a
//! resolved AST to the binary container.

use vstd::prelude::*;
use crate::ast::{
    AstNode, BinOp, EntityDef, FunctionDef, Identifier, IdentifierTarget, Module, body_wf, node_wf,
};
use crate::opcodes::{
    Hvalue, Op, OpG, encode_instruction, op_encodable, spec_decode_value, spec_encode_op,
    spec_encode_value,
};
use crate::vm_core::{bytes_eq, clone_bytes};
use crate::pbin::{
    FuncRow, spec_find_zero, spec_parse_data_row, spec_parse_data_rows, spec_parse_data_table,
    spec_parse_func_row, spec_parse_func_rows, spec_parse_func_table,
};

verus! {

/// An error that aborts compilation.
#[derive(Clone, Copy, PartialEq, Eq, Structural, Debug)]
pub enum CompileError {
    /// An identifier refers to a name with no prior declaration.
    UnresolvedIdentifier,
    /// An identifier is too long for the instruction encoding.
    NameTooLong,
    /// A data field name contains a zero byte and cannot be stored in the
    /// zero-terminated data table.
    BadName,
    /// An entity lists its functions out of lexicographic order.
    FunctionsUnsorted,
    /// A table or the code region outgrew the binary format's widths.
    TooLarge,
}

/// The set of names a list of byte strings holds.
pub open spec fn names_set(v: Seq<Vec<u8>>) -> Set<Seq<u8>> {
    Set::new(|k: Seq<u8>| exists|i: int| 0 <= i < v.len() && v[i]@ == k)
}

/// The local scope after a node: a `let` adds its name for everything that
/// follows it, and subexpressions thread left to right.
pub open spec fn locals_after(locals: Set<Seq<u8>>, n: AstNode) -> Set<Seq<u8>>
    decreases n,
{
    match n {
        AstNode::Operator(_, l, r) => locals_after(locals_after(locals, *l), *r),
        AstNode::Definition(id, e) => locals_after(locals.insert(id.original_sym@), *e),
        AstNode::Assignment(_, e) => locals_after(locals, *e),
        AstNode::Await(e) => locals_after(locals, *e),
        AstNode::Return(e) => locals_after(locals, *e),
        _ => locals,
    }
}

/// Whether a node resolves in the given scopes: every identifier must be
/// short enough for the instruction encoding and declared — locally or by
/// the entity — before use; a `let` declares its name for its own bound
/// expression onward.
pub open spec fn resolve_node_ok(locals: Set<Seq<u8>>, evars: Set<Seq<u8>>, n: AstNode) -> bool
    decreases n,
{
    match n {
        AstNode::Value(_) => true,
        AstNode::Identifier(id) => id.original_sym@.len() <= 255
            && (locals.contains(id.original_sym@) || evars.contains(id.original_sym@)),
        AstNode::Operator(_, l, r) => resolve_node_ok(locals, evars, *l)
            && resolve_node_ok(locals_after(locals, *l), evars, *r),
        AstNode::Definition(id, e) => id.original_sym@.len() <= 255
            && resolve_node_ok(locals.insert(id.original_sym@), evars, *e),
        AstNode::Assignment(id, e) => id.original_sym@.len() <= 255
            && (locals.contains(id.original_sym@) || evars.contains(id.original_sym@))
            && resolve_node_ok(locals, evars, *e),
        AstNode::Await(e) => resolve_node_ok(locals, evars, *e),
        AstNode::Return(e) => resolve_node_ok(locals, evars, *e),
        AstNode::Message(_, _) => true,
        AstNode::ForeignCall(_) => true,
    }
}

/// Pushing a name onto a scope list inserts it into the scope set.
proof fn lemma_names_set_push(v: Seq<Vec<u8>>, n: Vec<u8>)
    ensures
        names_set(v.push(n)) == names_set(v).insert(n@),
{
    assert forall|k: Seq<u8>| names_set(v.push(n)).contains(k) implies names_set(v).insert(
        n@,
    ).contains(k) by {
        let i = choose|i: int| 0 <= i < v.push(n).len() && v.push(n)[i]@ == k;
        if i < v.len() {
            assert(v[i]@ == k);
        }
    }
    assert forall|k: Seq<u8>| names_set(v).insert(n@).contains(k) implies names_set(
        v.push(n),
    ).contains(k) by {
        if k == n@ {
            assert(v.push(n)[v.len() as int]@ == k);
        } else {
            let i = choose|i: int| 0 <= i < v.len() && v[i]@ == k;
            assert(v.push(n)[i]@ == k);
        }
    }
    assert(names_set(v.push(n)) =~= names_set(v).insert(n@));
}

/// A node only ever grows the local scope.
proof fn lemma_locals_after_grows(locals: Set<Seq<u8>>, n: AstNode)
    ensures
        locals <= locals_after(locals, n),
    decreases n,
{
    match n {
        AstNode::Operator(_, l, r) => {
            lemma_locals_after_grows(locals, *l);
            lemma_locals_after_grows(locals_after(locals, *l), *r);
        },
        AstNode::Definition(id, e) => {
            lemma_locals_after_grows(locals.insert(id.original_sym@), *e);
        },
        AstNode::Assignment(_, e) | AstNode::Await(e) | AstNode::Return(e) => {
            lemma_locals_after_grows(locals, *e);
        },
        _ => {},
    }
}

/// The local scope after the first `i` statements of a body.
pub open spec fn body_locals_after(locals: Set<Seq<u8>>, body: Seq<AstNode>, i: int) -> Set<
    Seq<u8>,
>
    decreases i,
{
    if i <= 0 {
        locals
    } else {
        locals_after(body_locals_after(locals, body, i - 1), body[i - 1])
    }
}

/// Whether the first `i` statements of a body resolve, threading the local
/// scope statement by statement.
pub open spec fn body_resolve_ok_upto(
    locals: Set<Seq<u8>>,
    evars: Set<Seq<u8>>,
    body: Seq<AstNode>,
    i: int,
) -> bool
    decreases i,
{
    if i <= 0 {
        true
    } else {
        body_resolve_ok_upto(locals, evars, body, i - 1) && resolve_node_ok(
            body_locals_after(locals, body, i - 1),
            evars,
            body[i - 1],
        )
    }
}

/// Whether a whole body resolves, starting from an empty local scope.
pub open spec fn body_resolve_ok(evars: Set<Seq<u8>>, body: Seq<AstNode>) -> bool {
    body_resolve_ok_upto(Set::empty(), evars, body, body.len() as int)
}

/// Whether every function of an entity resolves against the entity's
/// declared data fields.
pub open spec fn entity_resolve_ok(def: EntityDef) -> bool {
    forall|j: int| 0 <= j < def.functions@.len() ==> body_resolve_ok(
        names_set(def.data_declarations@),
        (#[trigger] def.functions@[j]).body@,
    )
}

/// Whether every entity of a module resolves.
pub open spec fn module_resolve_ok(m: Module) -> bool {
    forall|e: int| 0 <= e < m.entity_defs@.len()
        ==> entity_resolve_ok(#[trigger] m.entity_defs@[e])
}

/// A resolving prefix resolves up to any earlier point.
proof fn lemma_body_upto_prefix(
    locals: Set<Seq<u8>>,
    evars: Set<Seq<u8>>,
    body: Seq<AstNode>,
    j: int,
    i: int,
)
    requires
        j <= i,
        body_resolve_ok_upto(locals, evars, body, i),
    ensures
        body_resolve_ok_upto(locals, evars, body, j),
    decreases i - j,
{
    if j < i {
        lemma_body_upto_prefix(locals, evars, body, j, i - 1);
    }
}

/// The single-pass resolver: it walks each entity definition and tags every
/// identifier as a local or an entity-scoped variable.
pub struct VariableFlow {
    pub entity_vars: Vec<Vec<u8>>,
    pub local_vars: Vec<Vec<u8>>,
}

impl VariableFlow {
    /// A resolver with empty scopes.
    pub fn new() -> (r: VariableFlow)
        ensures
            names_set(r.entity_vars@) == Set::<Seq<u8>>::empty(),
            names_set(r.local_vars@) == Set::<Seq<u8>>::empty(),
    {
        let r = VariableFlow { entity_vars: Vec::new(), local_vars: Vec::new() };
        proof {
            assert(names_set(r.entity_vars@) =~= Set::<Seq<u8>>::empty());
            assert(names_set(r.local_vars@) =~= Set::<Seq<u8>>::empty());
        }
        r
    }

    /// Membership in a name set.
    fn contains(set: &Vec<Vec<u8>>, name: &Vec<u8>) -> (r: bool)
        ensures
            r == names_set(set@).contains(name@),
    {
        let mut i: usize = 0;
        while i < set.len()
            invariant
                i <= set@.len(),
                forall|j: int| 0 <= j < i ==> set@[j]@ != name@,
            decreases set@.len() - i,
        {
            if bytes_eq(&set[i], name) {
                return true;
            }
            i = i + 1;
        }
        proof {
            assert(!names_set(set@).contains(name@));
        }
        false
    }

    /// Resolves one bare identifier reference: a local if declared locally,
    /// else an entity variable if declared by the entity, else an error.
    pub fn visit_identifier(&mut self, symbol: &mut Identifier) -> (r: Result<(), CompileError>)
        ensures
            *final(self) == *old(self),
            final(symbol).original_sym@ == old(symbol).original_sym@,
            match r {
                Ok(()) => {
                    &&& old(symbol).original_sym@.len() <= 255
                    &&& final(symbol).target == if names_set(old(self).local_vars@).contains(
                        old(symbol).original_sym@,
                    ) {
                        IdentifierTarget::LocalVar
                    } else {
                        IdentifierTarget::EntityVar
                    }
                    &&& (names_set(old(self).local_vars@).contains(old(symbol).original_sym@)
                        || names_set(old(self).entity_vars@).contains(old(symbol).original_sym@))
                },
                Err(CompileError::NameTooLong) => old(symbol).original_sym@.len() > 255,
                Err(CompileError::UnresolvedIdentifier) => {
                    &&& !names_set(old(self).local_vars@).contains(old(symbol).original_sym@)
                    &&& !names_set(old(self).entity_vars@).contains(old(symbol).original_sym@)
                },
                Err(_) => false,
            },
    {
        if symbol.original_sym.len() > 255 {
            return Err(CompileError::NameTooLong);
        }
        if Self::contains(&self.local_vars, &symbol.original_sym) {
            symbol.target = IdentifierTarget::LocalVar;
            Ok(())
        } else if Self::contains(&self.entity_vars, &symbol.original_sym) {
            symbol.target = IdentifierTarget::EntityVar;
            Ok(())
        } else {
            Err(CompileError::UnresolvedIdentifier)
        }
    }

    /// Resolves a `let`: the name joins the local scope before the bound
    /// expression is walked, and the identifier is tagged as a local.
    pub fn visit_definition(&mut self, symbol: &mut Identifier, expr: &mut AstNode) -> (r: Result<
        (),
        CompileError,
    >)
        ensures
            final(self).entity_vars == old(self).entity_vars,
            names_set(old(self).local_vars@) <= names_set(final(self).local_vars@),
            r is Ok <==> (old(symbol).original_sym@.len() <= 255 && resolve_node_ok(
                names_set(old(self).local_vars@).insert(old(symbol).original_sym@),
                names_set(old(self).entity_vars@),
                *old(expr),
            )),
            r is Ok ==> {
                &&& final(symbol).target == IdentifierTarget::LocalVar
                &&& final(symbol).original_sym@ == old(symbol).original_sym@
                &&& node_wf(*final(expr))
                &&& names_set(final(self).local_vars@) == locals_after(
                    names_set(old(self).local_vars@).insert(old(symbol).original_sym@),
                    *old(expr),
                )
                &&& names_set(final(self).local_vars@).contains(old(symbol).original_sym@)
            },
        decreases *old(expr), 1int,
    {
        if symbol.original_sym.len() > 255 {
            return Err(CompileError::NameTooLong);
        }
        let name = clone_bytes(&symbol.original_sym);
        proof {
            lemma_names_set_push(self.local_vars@, name);
        }
        self.local_vars.push(name);
        symbol.target = IdentifierTarget::LocalVar;
        let r = self.visit_node(expr);
        proof {
            if r is Ok {
                lemma_locals_after_grows(
                    names_set(old(self).local_vars@).insert(old(symbol).original_sym@),
                    *old(expr),
                );
            }
        }
        r
    }

    /// Resolves one node of a function body.
    pub fn visit_node(&mut self, n: &mut AstNode) -> (r: Result<(), CompileError>)
        ensures
            final(self).entity_vars == old(self).entity_vars,
            names_set(old(self).local_vars@) <= names_set(final(self).local_vars@),
            r is Ok <==> resolve_node_ok(
                names_set(old(self).local_vars@),
                names_set(old(self).entity_vars@),
                *old(n),
            ),
            r is Ok ==> node_wf(*final(n)) && names_set(final(self).local_vars@)
                == locals_after(names_set(old(self).local_vars@), *old(n)),
        decreases *old(n), 0int,
    {
        match n {
            AstNode::Value(_) => Ok(()),
            AstNode::Identifier(id) => self.visit_identifier(id),
            AstNode::Operator(_, l, r) => {
                match self.visit_node(l) {
                    Ok(()) => {},
                    Err(e) => {
                        return Err(e);
                    },
                }
                self.visit_node(r)
            },
            AstNode::Definition(id, e) => self.visit_definition(id, e),
            AstNode::Assignment(id, e) => {
                match self.visit_identifier(id) {
                    Ok(()) => {},
                    Err(e) => {
                        return Err(e);
                    },
                }
                self.visit_node(e)
            },
            AstNode::Await(e) => self.visit_node(e),
            AstNode::Return(e) => self.visit_node(e),
            AstNode::Message(_, _) => Ok(()),
            AstNode::ForeignCall(_) => Ok(()),
        }
    }

    /// Resolves one entity definition: the entity scope is its data
    /// declarations, and each function body starts with a fresh local scope.
    #[verifier::loop_isolation(false)]
    pub fn visit_entity_def(&mut self, def: &mut EntityDef) -> (r: Result<(), CompileError>)
        ensures
            r is Ok <==> entity_resolve_ok(*old(def)),
            match r {
                Ok(()) => {
                    &&& final(def).functions@.len() == old(def).functions@.len()
                    &&& forall|j: int| 0 <= j < final(def).functions@.len()
                        ==> body_wf((#[trigger] final(def).functions@[j]).body@)
                    &&& final(def).data_declarations == old(def).data_declarations
                    &&& final(def).name == old(def).name
                },
                Err(_) => true,
            },
    {
        let ghost ev = names_set(old(def).data_declarations@);
        self.entity_vars = Vec::new();
        proof {
            assert(names_set(self.entity_vars@)
                =~= names_set(def.data_declarations@.subrange(0, 0)));
        }
        let mut i: usize = 0;
        while i < def.data_declarations.len()
            invariant
                i <= def.data_declarations@.len(),
                def == old(def),
                names_set(self.entity_vars@)
                    == names_set(def.data_declarations@.subrange(0, i as int)),
            decreases def.data_declarations@.len() - i,
        {
            let name = clone_bytes(&def.data_declarations[i]);
            proof {
                lemma_names_set_push(self.entity_vars@, name);
            }
            self.entity_vars.push(name);
            i = i + 1;
            proof {
                assert(def.data_declarations@.subrange(0, i as int)
                    =~= def.data_declarations@.subrange(0, i - 1).push(
                    def.data_declarations@[i - 1],
                ));
                lemma_names_set_push(
                    def.data_declarations@.subrange(0, i - 1),
                    def.data_declarations@[i - 1],
                );
                assert(names_set(self.entity_vars@) =~= names_set(
                    def.data_declarations@.subrange(0, i as int),
                ));
            }
        }
        proof {
            assert(def.data_declarations@.subrange(0, def.data_declarations@.len() as int)
                =~= def.data_declarations@);
            assert(names_set(self.entity_vars@) == ev);
        }
        let mut f: usize = 0;
        while f < def.functions.len()
            invariant
                f <= def.functions@.len(),
                def.functions@.len() == old(def).functions@.len(),
                def.data_declarations == old(def).data_declarations,
                def.name == old(def).name,
                names_set(self.entity_vars@) == ev,
                forall|j: int| f <= j < def.functions@.len()
                    ==> #[trigger] def.functions@[j] == old(def).functions@[j],
                forall|j: int| 0 <= j < f ==> body_wf((#[trigger] def.functions@[j]).body@),
                forall|j: int| 0 <= j < f ==> body_resolve_ok(
                    ev,
                    (#[trigger] old(def).functions@[j]).body@,
                ),
            decreases def.functions@.len() - f,
        {
            self.local_vars = Vec::new();
            proof {
                assert(names_set(self.local_vars@) =~= Set::<Seq<u8>>::empty());
            }
            let func = vstd::std_specs::vec::vec_index_mut(&mut def.functions, f);
            let ghost orig_body = func.body@;
            proof {
                assert(orig_body == old(def).functions@[f as int].body@);
            }
            let mut b: usize = 0;
            while b < func.body.len()
                invariant
                    b <= func.body@.len(),
                    func.body@.len() == orig_body.len(),
                    names_set(self.entity_vars@) == ev,
                    forall|t: int| b <= t < func.body@.len()
                        ==> #[trigger] func.body@[t] == orig_body[t],
                    forall|t: int| 0 <= t < b ==> node_wf(#[trigger] func.body@[t]),
                    names_set(self.local_vars@) == body_locals_after(
                        Set::empty(),
                        orig_body,
                        b as int,
                    ),
                    body_resolve_ok_upto(Set::empty(), ev, orig_body, b as int),
                decreases func.body@.len() - b,
            {
                let node = vstd::std_specs::vec::vec_index_mut(&mut func.body, b);
                match self.visit_node(node) {
                    Ok(()) => {},
                    Err(e) => {
                        proof {
                            assert(!resolve_node_ok(
                                body_locals_after(Set::empty(), orig_body, b as int),
                                ev,
                                orig_body[b as int],
                            ));
                            assert(!body_resolve_ok_upto(
                                Set::empty(),
                                ev,
                                orig_body,
                                b as int + 1,
                            ));
                            if body_resolve_ok(ev, orig_body) {
                                lemma_body_upto_prefix(
                                    Set::empty(),
                                    ev,
                                    orig_body,
                                    b as int + 1,
                                    orig_body.len() as int,
                                );
                            }
                            assert(!entity_resolve_ok(*old(def)));
                        }
                        return Err(e);
                    },
                }
                b = b + 1;
            }
            f = f + 1;
            proof {
                assert(body_resolve_ok(ev, old(def).functions@[f - 1].body@));
            }
        }
        Ok(())
    }
}

/// Every function body of every entity is resolved and well formed.
pub open spec fn module_resolved(m: Module) -> bool {
    forall|i: int| 0 <= i < m.entity_defs@.len()
        ==> (forall|j: int| 0 <= j < (#[trigger] m.entity_defs@[i]).functions@.len()
            ==> body_wf((#[trigger] m.entity_defs@[i].functions@[j]).body@))
}

/// Resolves a whole module in place. On success every identifier reachable
/// from a function body carries a `LocalVar` or `EntityVar` target; it
/// fails exactly when some identifier has no prior declaration or is too
/// long for the instruction encoding.
#[verifier::loop_isolation(false)]
pub fn resolve_module(module: &mut Module) -> (r: Result<(), CompileError>)
    ensures
        r is Ok <==> module_resolve_ok(*old(module)),
        r is Ok ==> module_resolved(*final(module))
            && final(module).entity_defs@.len() == old(module).entity_defs@.len(),
{
    let mut flow = VariableFlow::new();
    let mut i: usize = 0;
    while i < module.entity_defs.len()
        invariant
            i <= module.entity_defs@.len(),
            module.entity_defs@.len() == old(module).entity_defs@.len(),
            forall|e: int| i <= e < module.entity_defs@.len()
                ==> #[trigger] module.entity_defs@[e] == old(module).entity_defs@[e],
            forall|e: int| 0 <= e < i
                ==> entity_resolve_ok(#[trigger] old(module).entity_defs@[e]),
            forall|k: int| 0 <= k < i
                ==> (forall|j: int| 0 <= j
                    < (#[trigger] module.entity_defs@[k]).functions@.len()
                    ==> body_wf((#[trigger] module.entity_defs@[k].functions@[j]).body@)),
        decreases module.entity_defs@.len() - i,
    {
        let def = vstd::std_specs::vec::vec_index_mut(&mut module.entity_defs, i);
        match flow.visit_entity_def(def) {
            Ok(()) => {},
            Err(e) => {
                proof {
                    assert(!entity_resolve_ok(old(module).entity_defs@[i as int]));
                }
                return Err(e);
            },
        }
        i = i + 1;
    }
    Ok(())
}

/// The arithmetic instruction for a binary operator.
pub open spec fn arith_op(k: BinOp) -> OpG {
    match k {
        BinOp::Add => OpG::Add,
        BinOp::Sub => OpG::Sub,
        BinOp::Mul => OpG::Mul,
        BinOp::Div => OpG::Div,
    }
}

/// The instruction list one AST node lowers to.
pub open spec fn node_ops(n: AstNode) -> Seq<OpG>
    decreases n,
{
    match n {
        AstNode::Value(v) => seq![OpG::Push(v)],
        AstNode::Identifier(id) => if id.target == IdentifierTarget::LocalVar {
            seq![OpG::Lload(id.original_sym@)]
        } else {
            seq![OpG::Eload(id.original_sym@)]
        },
        AstNode::Operator(k, l, r) => node_ops(*l) + node_ops(*r) + seq![arith_op(k)],
        AstNode::Definition(id, e) => node_ops(*e) + seq![
            if id.target == IdentifierTarget::LocalVar {
                OpG::Lstore(id.original_sym@)
            } else {
                OpG::Estore(id.original_sym@)
            },
        ],
        AstNode::Assignment(id, e) => node_ops(*e) + seq![
            if id.target == IdentifierTarget::LocalVar {
                OpG::Lstore(id.original_sym@)
            } else {
                OpG::Estore(id.original_sym@)
            },
        ],
        AstNode::Await(e) => node_ops(*e) + seq![OpG::Await],
        AstNode::Return(e) => node_ops(*e) + seq![OpG::Ret],
        AstNode::Message(_, fid) => seq![OpG::Message(fid)],
        AstNode::ForeignCall(f) => seq![OpG::ForeignCall(f), OpG::Ret],
    }
}

/// The instruction list of the first `i` statements of a body.
pub open spec fn body_ops_upto(body: Seq<AstNode>, i: int) -> Seq<OpG>
    decreases i,
{
    if i <= 0 {
        Seq::empty()
    } else {
        body_ops_upto(body, i - 1) + node_ops(body[i - 1])
    }
}

/// The instruction list of a whole body.
pub open spec fn body_ops(body: Seq<AstNode>) -> Seq<OpG> {
    body_ops_upto(body, body.len() as int)
}

/// The byte encoding of an instruction list.
pub open spec fn encode_ops(ops: Seq<OpG>) -> Seq<u8>
    decreases ops.len(),
{
    if ops.len() == 0 {
        Seq::empty()
    } else {
        spec_encode_op(ops[0]) + encode_ops(ops.subrange(1, ops.len() as int))
    }
}

/// Encoding distributes over concatenation of instruction lists.
pub proof fn lemma_encode_ops_app(a: Seq<OpG>, b: Seq<OpG>)
    ensures
        encode_ops(a + b) == encode_ops(a) + encode_ops(b),
    decreases a.len(),
{
    if a.len() == 0 {
        assert(a + b =~= b);
        assert(encode_ops(a) + encode_ops(b) =~= encode_ops(b));
    } else {
        assert((a + b).subrange(1, (a + b).len() as int)
            =~= a.subrange(1, a.len() as int) + b);
        lemma_encode_ops_app(a.subrange(1, a.len() as int), b);
        assert((a + b)[0] == a[0]);
        assert(spec_encode_op(a[0]) + (encode_ops(a.subrange(1, a.len() as int)) + encode_ops(b))
            =~= (spec_encode_op(a[0]) + encode_ops(a.subrange(1, a.len() as int)))
                + encode_ops(b));
    }
}

/// The range `[i, end)` of `code` decodes without residue: instruction
/// follows instruction, and the last one ends exactly at `end`.
pub open spec fn decodes_to_end(code: Seq<u8>, i: int, end: int) -> bool
    decreases end - i,
        via decodes_to_end_dec
{
    if i >= end {
        i == end
    } else {
        match crate::opcodes::spec_decode_op(code, i) {
            Some((op, j)) => j <= end && decodes_to_end(code, j, end),
            None => false,
        }
    }
}

#[via_fn]
proof fn decodes_to_end_dec(code: Seq<u8>, i: int, end: int) {
    if i < end {
        match crate::opcodes::spec_decode_op(code, i) {
            Some((op, j)) => {
                crate::opcodes::lemma_decode_encode_bytes(code, i, op, j);
            },
            None => {},
        }
    }
}

/// Every instruction a well-formed node lowers to is encodable.
proof fn lemma_node_ops_encodable(n: AstNode)
    requires
        node_wf(n),
    ensures
        forall|k: int| 0 <= k < node_ops(n).len() ==> op_encodable(#[trigger] node_ops(n)[k]),
    decreases n,
{
    match n {
        AstNode::Operator(k2, l, r) => {
            lemma_node_ops_encodable(*l);
            lemma_node_ops_encodable(*r);
            let a = node_ops(*l);
            let b = node_ops(*r);
            assert forall|k: int| 0 <= k < node_ops(n).len() implies op_encodable(
                #[trigger] node_ops(n)[k],
            ) by {
                if k < a.len() {
                    assert(node_ops(n)[k] == a[k]);
                } else if k < a.len() + b.len() {
                    assert(node_ops(n)[k] == (a + b)[k]);
                    assert((a + b)[k] == b[k - a.len()]);
                } else {
                    assert(node_ops(n)[k] == arith_op(k2));
                }
            }
        },
        AstNode::Definition(id, e) | AstNode::Assignment(id, e) => {
            lemma_node_ops_encodable(*e);
            let a = node_ops(*e);
            let sop = if id.target == IdentifierTarget::LocalVar {
                OpG::Lstore(id.original_sym@)
            } else {
                OpG::Estore(id.original_sym@)
            };
            assert forall|k: int| 0 <= k < node_ops(n).len() implies op_encodable(
                #[trigger] node_ops(n)[k],
            ) by {
                if k < a.len() {
                    assert(node_ops(n)[k] == a[k]);
                } else {
                    assert(node_ops(n)[k] == sop);
                }
            }
        },
        AstNode::Await(e) => {
            lemma_node_ops_encodable(*e);
            let a = node_ops(*e);
            assert forall|k: int| 0 <= k < node_ops(n).len() implies op_encodable(
                #[trigger] node_ops(n)[k],
            ) by {
                if k < a.len() {
                    assert(node_ops(n)[k] == a[k]);
                } else {
                    assert(node_ops(n)[k] == OpG::Await);
                }
            }
        },
        AstNode::Return(e) => {
            lemma_node_ops_encodable(*e);
            let a = node_ops(*e);
            assert forall|k: int| 0 <= k < node_ops(n).len() implies op_encodable(
                #[trigger] node_ops(n)[k],
            ) by {
                if k < a.len() {
                    assert(node_ops(n)[k] == a[k]);
                } else {
                    assert(node_ops(n)[k] == OpG::Ret);
                }
            }
        },
        _ => {},
    }
}

/// Every instruction a well-formed body lowers to is encodable.
proof fn lemma_body_ops_encodable(body: Seq<AstNode>, i: int)
    requires
        body_wf(body),
        0 <= i <= body.len(),
    ensures
        forall|k: int| 0 <= k < body_ops_upto(body, i).len()
            ==> op_encodable(#[trigger] body_ops_upto(body, i)[k]),
    decreases i,
{
    if i > 0 {
        lemma_body_ops_encodable(body, i - 1);
        lemma_node_ops_encodable(body[i - 1]);
        let a = body_ops_upto(body, i - 1);
        let b = node_ops(body[i - 1]);
        assert forall|k: int| 0 <= k < body_ops_upto(body, i).len() implies op_encodable(
            #[trigger] body_ops_upto(body, i)[k],
        ) by {
            if k < a.len() {
                assert(body_ops_upto(body, i)[k] == a[k]);
            } else {
                assert(body_ops_upto(body, i)[k] == b[k - a.len()]);
            }
        }
    }
}

/// A byte range holding the encoding of an instruction list decodes without
/// residue.
proof fn lemma_encode_ops_decode(code: Seq<u8>, i: int, ops: Seq<OpG>)
    requires
        0 <= i,
        forall|k: int| 0 <= k < ops.len() ==> op_encodable(#[trigger] ops[k]),
        i + encode_ops(ops).len() <= code.len(),
        code.subrange(i, i + encode_ops(ops).len() as int) == encode_ops(ops),
    ensures
        decodes_to_end(code, i, i + encode_ops(ops).len() as int),
    decreases ops.len(),
{
    if ops.len() > 0 {
        let op0 = ops[0];
        let rest = ops.subrange(1, ops.len() as int);
        let e0 = spec_encode_op(op0);
        let er = encode_ops(rest);
        assert(encode_ops(ops) == e0 + er);
        assert(code.subrange(i, i + e0.len() as int) =~= e0) by {
            assert forall|k: int| 0 <= k < e0.len() implies code[i + k] == e0[k] by {
                assert(code.subrange(i, i + encode_ops(ops).len() as int)[k] == code[i + k]);
                assert((e0 + er)[k] == e0[k]);
            }
        }
        crate::opcodes::lemma_codec_round_trip_at(code, i, op0);
        let j = i + e0.len() as int;
        assert(code.subrange(j, j + er.len() as int) =~= er) by {
            assert forall|k: int| 0 <= k < er.len() implies code[j + k] == er[k] by {
                assert(code.subrange(i, i + encode_ops(ops).len() as int)[e0.len() + k]
                    == code[i + e0.len() + k]);
                assert((e0 + er)[e0.len() + k] == er[k]);
            }
        }
        lemma_encode_ops_decode(code, j, rest);
    }
}

/// A cleanly-decoding range stays so in any byte sequence holding the same
/// bytes at a shifted position.
proof fn lemma_decodes_to_end_shift(c: Seq<u8>, c2: Seq<u8>, a: int, b: int, d: int)
    requires
        decodes_to_end(c, a, b),
        0 <= a <= b <= c.len(),
        0 <= a + d,
        b + d <= c2.len(),
        c2.subrange(a + d, b + d) == c.subrange(a, b),
    ensures
        decodes_to_end(c2, a + d, b + d),
    decreases b - a,
{
    if a < b {
        let (op, j) = crate::opcodes::spec_decode_op(c, a)->Some_0;
        crate::opcodes::lemma_decode_encode_bytes(c, a, op, j);
        assert(c2.subrange(a + d, j + d) =~= spec_encode_op(op)) by {
            assert forall|k: int| 0 <= k < j - a implies c2[a + d + k] == c.subrange(a, j)[k] by {
                assert(c2.subrange(a + d, b + d)[k] == c2[a + d + k]);
                assert(c.subrange(a, b)[k] == c[a + k]);
            }
        }
        crate::opcodes::lemma_codec_round_trip_at(c2, a + d, op);
        assert(c2.subrange(j + d, b + d) =~= c.subrange(j, b)) by {
            assert forall|k: int| 0 <= k < b - j implies c2.subrange(j + d, b + d)[k]
                == c.subrange(j, b)[k] by {
                assert(c2.subrange(a + d, b + d)[j - a + k] == c2[j + d + k]);
                assert(c.subrange(a, b)[j - a + k] == c[j + k]);
            }
        }
        lemma_decodes_to_end_shift(c, c2, j, b, d);
    }
}

/// The code bytes of the first `i` functions of an entity.
pub open spec fn funcs_code_upto(fs: Seq<FunctionDef>, i: int) -> Seq<u8>
    decreases i,
{
    if i <= 0 {
        Seq::empty()
    } else {
        funcs_code_upto(fs, i - 1) + encode_ops(body_ops(fs[i - 1].body@))
    }
}

/// The code bytes of the first `i` entities of a module.
pub open spec fn module_code(es: Seq<EntityDef>, i: int) -> Seq<u8>
    decreases i,
{
    if i <= 0 {
        Seq::empty()
    } else {
        module_code(es, i - 1) + funcs_code_upto(
            es[i - 1].functions@,
            es[i - 1].functions@.len() as int,
        )
    }
}

/// The data-table row bytes of the first `i` declarations of entity `eid`:
/// each row is the entity id, the zero-terminated name, and an encoded
/// initial value. The format currently fixes that value to `U8(4)` for
/// every field — a deliberate placeholder the runtime scenarios rely on —
/// while entities themselves start each field at `HNone` until the loaded
/// table is applied.
pub open spec fn entity_data_bytes(decls: Seq<Vec<u8>>, i: int, eid: int) -> Seq<u8>
    decreases i,
{
    if i <= 0 {
        Seq::empty()
    } else {
        entity_data_bytes(decls, i - 1, eid) + seq![eid as u8] + decls[i - 1]@ + seq![0u8]
            + spec_encode_value(Hvalue::Hu8(4))
    }
}

/// The data-table row bytes of the first `i` entities.
pub open spec fn module_data_bytes(es: Seq<EntityDef>, i: int) -> Seq<u8>
    decreases i,
{
    if i <= 0 {
        Seq::empty()
    } else {
        module_data_bytes(es, i - 1) + entity_data_bytes(
            es[i - 1].data_declarations@,
            es[i - 1].data_declarations@.len() as int,
            i - 1,
        )
    }
}

/// The number of data-table rows of the first `i` entities.
pub open spec fn data_count(es: Seq<EntityDef>, i: int) -> int
    decreases i,
{
    if i <= 0 {
        0
    } else {
        data_count(es, i - 1) + es[i - 1].data_declarations@.len()
    }
}

/// The number of functions of the first `i` entities.
pub open spec fn func_count(es: Seq<EntityDef>, i: int) -> int
    decreases i,
{
    if i <= 0 {
        0
    } else {
        func_count(es, i - 1) + es[i - 1].functions@.len()
    }
}

/// The function-location rows `(entity_id, func_id, relative_start, length)`
/// of the first `j` functions of one entity, given the entity's id, its
/// first function id and the code offset where its code begins.
pub open spec fn entity_rows(fs: Seq<FunctionDef>, j: int, eid: int, fid0: int, off: int) -> Seq<
    (u32, u32, usize, usize),
>
    decreases j,
{
    if j <= 0 {
        Seq::empty()
    } else {
        entity_rows(fs, j - 1, eid, fid0, off).push(
            (
                eid as u32,
                (fid0 + j - 1) as u32,
                (off + funcs_code_upto(fs, j - 1).len()) as usize,
                encode_ops(body_ops(fs[j - 1].body@)).len() as usize,
            ),
        )
    }
}

/// The function-location rows of the first `i` entities.
pub open spec fn module_rows(es: Seq<EntityDef>, i: int) -> Seq<(u32, u32, usize, usize)>
    decreases i,
{
    if i <= 0 {
        Seq::empty()
    } else {
        module_rows(es, i - 1) + entity_rows(
            es[i - 1].functions@,
            es[i - 1].functions@.len() as int,
            i - 1,
            func_count(es, i - 1),
            module_code(es, i - 1).len() as int,
        )
    }
}

/// The encoded function-table rows: `entity_id:u8 || func_id:u8 ||
/// start:u16_be || length:u16_be`, where `start` is made absolute by adding
/// the table's own size and the header length at which it begins.
pub open spec fn ftable_bytes_upto(
    rows: Seq<(u32, u32, usize, usize)>,
    j: int,
    sz: int,
    hoff: int,
) -> Seq<u8>
    decreases j,
{
    if j <= 0 {
        Seq::empty()
    } else {
        let abs = rows[j - 1].2 + 1 + sz * 6 + hoff;
        ftable_bytes_upto(rows, j - 1, sz, hoff) + seq![
            rows[j - 1].0 as u8,
            rows[j - 1].1 as u8,
            (abs / 256) as u8,
            (abs % 256) as u8,
            (rows[j - 1].3 / 256) as u8,
            (rows[j - 1].3 % 256) as u8,
        ]
    }
}

/// The complete binary a resolved module generates: the data table, the
/// function-location table, then the code region.
pub open spec fn spec_generate(es: Seq<EntityDef>) -> Seq<u8> {
    let n = es.len() as int;
    let dbytes = seq![data_count(es, n) as u8] + module_data_bytes(es, n);
    let rows = module_rows(es, n);
    let fbytes = seq![rows.len() as u8] + ftable_bytes_upto(
        rows,
        rows.len() as int,
        rows.len() as int,
        dbytes.len() as int,
    );
    dbytes + fbytes + module_code(es, n)
}

/// Byte-identity of generated binaries: generation is a function of the
/// resolved AST alone, so two generated binaries for one AST are equal.
pub proof fn lemma_generate_deterministic(es: Seq<EntityDef>, b1: Seq<u8>, b2: Seq<u8>)
    requires
        b1 == spec_generate(es),
        b2 == spec_generate(es),
    ensures
        b1 == b2,
{
}

/// A function-location row whose range lies inside `code` and decodes
/// without residue.
spec fn row_decodes(code: Seq<u8>, row: (u32, u32, usize, usize)) -> bool {
    &&& row.2 + row.3 <= code.len()
    &&& decodes_to_end(code, row.2 as int, row.2 + row.3)
}

/// Earlier function prefixes are prefixes of later ones.
proof fn lemma_funcs_upto_prefix(fs: Seq<FunctionDef>, k: int, j: int)
    requires
        0 <= k <= j,
    ensures
        funcs_code_upto(fs, k).len() <= funcs_code_upto(fs, j).len(),
        funcs_code_upto(fs, j).subrange(0, funcs_code_upto(fs, k).len() as int)
            == funcs_code_upto(fs, k),
    decreases j - k,
{
    if k < j {
        lemma_funcs_upto_prefix(fs, k, j - 1);
        assert(funcs_code_upto(fs, j).subrange(0, funcs_code_upto(fs, k).len() as int)
            =~= funcs_code_upto(fs, j - 1).subrange(0, funcs_code_upto(fs, k).len() as int));
    } else {
        assert(funcs_code_upto(fs, j).subrange(0, funcs_code_upto(fs, k).len() as int)
            =~= funcs_code_upto(fs, k));
    }
}

/// The row list of one entity has one row per function.
proof fn lemma_entity_rows_len(fs: Seq<FunctionDef>, j: int, eid: int, fid0: int, off: int)
    requires
        0 <= j,
    ensures
        entity_rows(fs, j, eid, fid0, off).len() == j,
    decreases j,
{
    if j > 0 {
        lemma_entity_rows_len(fs, j - 1, eid, fid0, off);
    }
}

/// The `k`th row of one entity locates its `k`th function.
proof fn lemma_entity_rows_index(
    fs: Seq<FunctionDef>,
    j: int,
    eid: int,
    fid0: int,
    off: int,
    k: int,
)
    requires
        0 <= k < j,
    ensures
        entity_rows(fs, j, eid, fid0, off).len() == j,
        entity_rows(fs, j, eid, fid0, off)[k] == (
            eid as u32,
            (fid0 + k) as u32,
            (off + funcs_code_upto(fs, k).len()) as usize,
            encode_ops(body_ops(fs[k].body@)).len() as usize,
        ),
    decreases j,
{
    lemma_entity_rows_len(fs, j, eid, fid0, off);
    if k < j - 1 {
        lemma_entity_rows_index(fs, j - 1, eid, fid0, off, k);
    } else {
        lemma_entity_rows_len(fs, j - 1, eid, fid0, off);
    }
}

/// Every bodily well-formed module: each recorded function range lies
/// inside the code region of its first `i` entities and decodes without
/// residue.
proof fn lemma_rows_ranges(es: Seq<EntityDef>, i: int)
    requires
        0 <= i <= es.len(),
        forall|e: int| 0 <= e < es.len()
            ==> (forall|k: int| 0 <= k < (#[trigger] es[e]).functions@.len()
                ==> body_wf((#[trigger] es[e].functions@[k]).body@)),
        module_code(es, i).len() <= usize::MAX,
    ensures
        forall|j: int| 0 <= j < module_rows(es, i).len()
            ==> row_decodes(module_code(es, i), #[trigger] module_rows(es, i)[j]),
    decreases i,
{
    if i > 0 {
        let old_code = module_code(es, i - 1);
        let fs = es[i - 1].functions@;
        let fl = fs.len() as int;
        let seg = funcs_code_upto(fs, fl);
        let code = module_code(es, i);
        assert(code == old_code + seg);
        lemma_rows_ranges(es, i - 1);
        let old_rows = module_rows(es, i - 1);
        let fid0 = func_count(es, i - 1);
        lemma_entity_rows_len(fs, fl, i - 1, fid0, old_code.len() as int);
        assert forall|j: int| 0 <= j < module_rows(es, i).len() implies row_decodes(
            code,
            #[trigger] module_rows(es, i)[j],
        ) by {
            if j < old_rows.len() {
                let row = old_rows[j];
                assert(module_rows(es, i)[j] == row);
                assert(row_decodes(old_code, old_rows[j]));
                assert(code.subrange(row.2 as int, row.2 + row.3)
                    =~= old_code.subrange(row.2 as int, row.2 + row.3));
                lemma_decodes_to_end_shift(
                    old_code,
                    code,
                    row.2 as int,
                    row.2 + row.3,
                    0,
                );
            } else {
                let k = j - old_rows.len();
                lemma_entity_rows_index(fs, fl, i - 1, fid0, old_code.len() as int, k);
                let row = module_rows(es, i)[j];
                assert(row == entity_rows(fs, fl, i - 1, fid0, old_code.len() as int)[k]);
                let ops = body_ops(fs[k].body@);
                let blen = encode_ops(ops).len() as int;
                lemma_funcs_upto_prefix(fs, k + 1, fl);
                assert(funcs_code_upto(fs, k + 1) == funcs_code_upto(fs, k) + encode_ops(ops));
                let a = old_code.len() as int + funcs_code_upto(fs, k).len() as int;
                assert(a + blen <= code.len());
                assert(row.2 == a && row.3 == blen);
                assert(code.subrange(a, a + blen) =~= encode_ops(ops)) by {
                    assert forall|t: int| 0 <= t < blen implies code.subrange(a, a + blen)[t]
                        == encode_ops(ops)[t] by {
                        let p = funcs_code_upto(fs, k).len() as int;
                        assert(code.subrange(a, a + blen)[t] == code[a + t]);
                        assert(code[a + t] == seg[p + t]);
                        assert(seg.subrange(0, funcs_code_upto(fs, k + 1).len() as int)[p + t]
                            == seg[p + t]);
                        assert(funcs_code_upto(fs, k + 1)[p + t] == encode_ops(ops)[t]);
                    }
                }
                assert(body_wf(fs[k].body@));
                lemma_body_ops_encodable(fs[k].body@, fs[k].body@.len() as int);
                lemma_encode_ops_decode(code, a, ops);
            }
        }
    }
}

/// Function-table offsets: for a resolved module whose code region fits the
/// address space, every `(start, length)` pair the generated function table
/// records satisfies `start + length <= size(binary)`, and the bytes it
/// names decode without residue.
pub proof fn lemma_function_table_offsets(es: Seq<EntityDef>, j: int)
    requires
        forall|e: int| 0 <= e < es.len()
            ==> (forall|k: int| 0 <= k < (#[trigger] es[e]).functions@.len()
                ==> body_wf((#[trigger] es[e].functions@[k]).body@)),
        module_code(es, es.len() as int).len() <= usize::MAX,
        0 <= j < module_rows(es, es.len() as int).len(),
    ensures
        ({
            let n = es.len() as int;
            let row = module_rows(es, n)[j];
            let hlen = spec_generate(es).len() - module_code(es, n).len();
            &&& row.2 + row.3 <= module_code(es, n).len()
            &&& hlen + row.2 + row.3 <= spec_generate(es).len()
            &&& decodes_to_end(spec_generate(es), hlen + row.2, hlen + row.2 + row.3)
        }),
{
    let n = es.len() as int;
    let code = module_code(es, n);
    let b = spec_generate(es);
    let row = module_rows(es, n)[j];
    lemma_rows_ranges(es, n);
    assert(row_decodes(code, module_rows(es, n)[j]));
    let hlen = b.len() - code.len();
    assert(hlen >= 0 && b.subrange(hlen, b.len() as int) =~= code);
    assert(b.subrange(hlen + row.2, hlen + row.2 + row.3)
        =~= code.subrange(row.2 as int, row.2 + row.3)) by {
        assert forall|t: int| 0 <= t < row.3 implies #[trigger] b.subrange(
            hlen + row.2,
            hlen + row.2 + row.3,
        )[t] == code.subrange(row.2 as int, row.2 + row.3)[t] by {
            assert(b.subrange(hlen, b.len() as int)[row.2 + t] == b[hlen + row.2 + t]);
        }
    }
    lemma_decodes_to_end_shift(code, b, row.2 as int, row.2 + row.3, hlen);
}

/// A row within the format's widths: ids fit a byte, the length fits
/// sixteen bits, and so does the start once made absolute.
pub open spec fn row_in_widths(row: (u32, u32, usize, usize), sz: int, hoff: int) -> bool {
    &&& row.0 <= 255
    &&& row.1 <= 255
    &&& row.3 <= 65535
    &&& row.2 + 1 + sz * 6 + hoff <= 65535
}

/// The row as the loader reports it: the same ids and length, the start
/// made absolute into the binary.
pub open spec fn abs_row(row: (u32, u32, usize, usize), sz: int, hoff: int) -> FuncRow {
    FuncRow {
        entity_id: row.0,
        func_id: row.1,
        start: (row.2 + 1 + sz * 6 + hoff) as usize,
        len: row.3,
    }
}

/// The loader's view of the rows from `t` on.
pub open spec fn abs_rows_from(
    rows: Seq<(u32, u32, usize, usize)>,
    t: int,
    sz: int,
    hoff: int,
) -> Seq<FuncRow>
    decreases rows.len() - t,
{
    if t < 0 || t >= rows.len() {
        Seq::empty()
    } else {
        seq![abs_row(rows[t], sz, hoff)] + abs_rows_from(rows, t + 1, sz, hoff)
    }
}

/// The six bytes of one encoded row stand at `q`.
pub open spec fn row_bytes_at(
    c: Seq<u8>,
    q: int,
    row: (u32, u32, usize, usize),
    sz: int,
    hoff: int,
) -> bool {
    let abs = row.2 + 1 + sz * 6 + hoff;
    &&& c[q] == row.0 as u8
    &&& c[q + 1] == row.1 as u8
    &&& c[q + 2] == (abs / 256) as u8
    &&& c[q + 3] == (abs % 256) as u8
    &&& c[q + 4] == (row.3 / 256) as u8
    &&& c[q + 5] == (row.3 % 256) as u8
}

/// The encoded table is six bytes per row.
proof fn lemma_ftable_bytes_len(rows: Seq<(u32, u32, usize, usize)>, j: int, sz: int, hoff: int)
    requires
        0 <= j,
    ensures
        ftable_bytes_upto(rows, j, sz, hoff).len() == 6 * j,
    decreases j,
{
    if j > 0 {
        lemma_ftable_bytes_len(rows, j - 1, sz, hoff);
    }
}

/// The `t`th encoded row stands at offset `6 t` of the encoded table.
proof fn lemma_ftable_bytes_index(
    rows: Seq<(u32, u32, usize, usize)>,
    j: int,
    sz: int,
    hoff: int,
    t: int,
)
    requires
        0 <= t < j,
    ensures
        row_bytes_at(ftable_bytes_upto(rows, j, sz, hoff), 6 * t, rows[t], sz, hoff),
    decreases j,
{
    lemma_ftable_bytes_len(rows, j, sz, hoff);
    lemma_ftable_bytes_len(rows, j - 1, sz, hoff);
    if t < j - 1 {
        lemma_ftable_bytes_index(rows, j - 1, sz, hoff, t);
    }
}

/// Parsing the encoded rows from `t` on yields the loader's view of them.
proof fn lemma_parse_ftable_rows(
    c: Seq<u8>,
    p: int,
    rows: Seq<(u32, u32, usize, usize)>,
    t: int,
    sz: int,
    hoff: int,
)
    requires
        0 <= t <= rows.len(),
        0 <= p,
        0 <= sz,
        0 <= hoff,
        p + 6 * (rows.len() - t) <= c.len(),
        forall|u: int| t <= u < rows.len() ==> row_in_widths(#[trigger] rows[u], sz, hoff),
        forall|u: int| t <= u < rows.len()
            ==> row_bytes_at(c, p + 6 * (u - t), #[trigger] rows[u], sz, hoff),
    ensures
        spec_parse_func_rows(c, p, (rows.len() - t) as nat) == Some((
            abs_rows_from(rows, t, sz, hoff),
            p + 6 * (rows.len() - t),
        )),
    decreases rows.len() - t,
{
    if t < rows.len() {
        let row = rows[t];
        let abs = row.2 + 1 + sz * 6 + hoff;
        assert(row_bytes_at(c, p + 6 * (t - t), rows[t], sz, hoff));
        assert(p + 6 * (t - t) == p);
        assert(row_bytes_at(c, p, rows[t], sz, hoff));
        assert(row_in_widths(rows[t], sz, hoff));
        vstd::arithmetic::div_mod::lemma_fundamental_div_mod(abs, 256);
        vstd::arithmetic::div_mod::lemma_mod_bound(abs, 256);
        vstd::arithmetic::div_mod::lemma_fundamental_div_mod(row.3 as int, 256);
        vstd::arithmetic::div_mod::lemma_mod_bound(row.3 as int, 256);
        assert((c[p + 2] as int) * 256 + (c[p + 3] as int) == abs);
        assert((c[p + 4] as int) * 256 + (c[p + 5] as int) == row.3);
        assert(spec_parse_func_row(c, p) == Some((abs_row(row, sz, hoff), p + 6)));
        assert forall|u: int| t + 1 <= u < rows.len() implies row_bytes_at(
            c,
            (p + 6) + 6 * (u - (t + 1)),
            #[trigger] rows[u],
            sz,
            hoff,
        ) by {
            assert((p + 6) + 6 * (u - (t + 1)) == p + 6 * (u - t));
        }
        lemma_parse_ftable_rows(c, p + 6, rows, t + 1, sz, hoff);
    }
}

/// Table round trip: parsing the function table of a generated binary
/// succeeds and reads back exactly the recorded rows, with each start made
/// absolute into the binary.
pub proof fn lemma_function_table_round_trip(es: Seq<EntityDef>)
    requires
        ({
            let n = es.len() as int;
            let rows = module_rows(es, n);
            let hoff = 1 + module_data_bytes(es, n).len() as int;
            &&& rows.len() <= 255
            &&& forall|j: int| 0 <= j < rows.len()
                ==> row_in_widths(#[trigger] rows[j], rows.len() as int, hoff)
        }),
    ensures
        ({
            let n = es.len() as int;
            let rows = module_rows(es, n);
            let hoff = 1 + module_data_bytes(es, n).len() as int;
            spec_parse_func_table(spec_generate(es), hoff) == Some((
                abs_rows_from(rows, 0, rows.len() as int, hoff),
                hoff + 1 + 6 * rows.len(),
            ))
        }),
{
    let n = es.len() as int;
    let rows = module_rows(es, n);
    let sz = rows.len() as int;
    let dbytes = seq![data_count(es, n) as u8] + module_data_bytes(es, n);
    let hoff = dbytes.len() as int;
    let tbytes = ftable_bytes_upto(rows, sz, sz, hoff);
    let fbytes = seq![sz as u8] + tbytes;
    let b = spec_generate(es);
    lemma_ftable_bytes_len(rows, sz, sz, hoff);
    assert(b == dbytes + fbytes + module_code(es, n));
    assert(b[hoff] == sz as u8) by {
        assert((dbytes + fbytes)[hoff] == fbytes[0]);
        assert(b[hoff] == (dbytes + fbytes)[hoff]);
    }
    assert forall|u: int| 0 <= u < sz implies row_bytes_at(
        b,
        hoff + 1 + 6 * u,
        #[trigger] rows[u],
        sz,
        hoff,
    ) by {
        lemma_ftable_bytes_index(rows, sz, sz, hoff, u);
        assert((dbytes + fbytes)[hoff + (1 + 6 * u)] == fbytes[1 + 6 * u]);
        assert((dbytes + fbytes)[hoff + (1 + 6 * u + 1)] == fbytes[1 + 6 * u + 1]);
        assert((dbytes + fbytes)[hoff + (1 + 6 * u + 2)] == fbytes[1 + 6 * u + 2]);
        assert((dbytes + fbytes)[hoff + (1 + 6 * u + 3)] == fbytes[1 + 6 * u + 3]);
        assert((dbytes + fbytes)[hoff + (1 + 6 * u + 4)] == fbytes[1 + 6 * u + 4]);
        assert((dbytes + fbytes)[hoff + (1 + 6 * u + 5)] == fbytes[1 + 6 * u + 5]);
        assert(fbytes[1 + 6 * u] == tbytes[6 * u]);
        assert(fbytes[1 + 6 * u + 1] == tbytes[6 * u + 1]);
        assert(fbytes[1 + 6 * u + 2] == tbytes[6 * u + 2]);
        assert(fbytes[1 + 6 * u + 3] == tbytes[6 * u + 3]);
        assert(fbytes[1 + 6 * u + 4] == tbytes[6 * u + 4]);
        assert(fbytes[1 + 6 * u + 5] == tbytes[6 * u + 5]);
        assert(b[hoff + 1 + 6 * u] == (dbytes + fbytes)[hoff + (1 + 6 * u)]);
        assert(b[hoff + 1 + 6 * u + 1] == (dbytes + fbytes)[hoff + (1 + 6 * u + 1)]);
        assert(b[hoff + 1 + 6 * u + 2] == (dbytes + fbytes)[hoff + (1 + 6 * u + 2)]);
        assert(b[hoff + 1 + 6 * u + 3] == (dbytes + fbytes)[hoff + (1 + 6 * u + 3)]);
        assert(b[hoff + 1 + 6 * u + 4] == (dbytes + fbytes)[hoff + (1 + 6 * u + 4)]);
        assert(b[hoff + 1 + 6 * u + 5] == (dbytes + fbytes)[hoff + (1 + 6 * u + 5)]);
    }
    lemma_parse_ftable_rows(b, hoff + 1, rows, 0, sz, hoff);
    assert(0 <= hoff < b.len());
    assert(b[hoff] as nat == sz as nat);
    assert(spec_parse_func_table(b, hoff) == spec_parse_func_rows(b, hoff + 1, sz as nat));
}

/// A name with no zero byte, as the zero-terminated data-table row format
/// requires.
pub open spec fn name_zero_free(name: Seq<u8>) -> bool {
    forall|t: int| 0 <= t < name.len() ==> name[t] != 0
}

/// The data rows of one entity from declaration `k` on, as the loader
/// reports them.
pub open spec fn data_rows_view_from(decls: Seq<Vec<u8>>, k: int, eid: int) -> Seq<
    (u32, Seq<u8>, Hvalue),
>
    decreases decls.len() - k,
{
    if k < 0 || k >= decls.len() {
        Seq::empty()
    } else {
        seq![(eid as u32, decls[k]@, Hvalue::Hu8(4))] + data_rows_view_from(decls, k + 1, eid)
    }
}

/// The data rows of the entities from `i` on, as the loader reports them.
pub open spec fn module_data_rows_view(es: Seq<EntityDef>, i: int) -> Seq<(u32, Seq<u8>, Hvalue)>
    decreases es.len() - i,
{
    if i < 0 || i >= es.len() {
        Seq::empty()
    } else {
        data_rows_view_from(es[i].data_declarations@, 0, i) + module_data_rows_view(es, i + 1)
    }
}

/// The first zero at or after `q` is the terminator after a zero-free name.
proof fn lemma_find_zero_after(c: Seq<u8>, q: int, n: int)
    requires
        0 <= q,
        0 <= n,
        q + n < c.len(),
        forall|t: int| 0 <= t < n ==> (#[trigger] c[q + t]) != 0,
        c[q + n] == 0,
    ensures
        spec_find_zero(c, q) == Some(q + n),
    decreases n,
{
    if n > 0 {
        assert(c[q + 0] != 0);
        assert forall|t: int| 0 <= t < n - 1 implies (#[trigger] c[(q + 1) + t]) != 0 by {
            assert(c[q + (t + 1)] != 0);
        }
        lemma_find_zero_after(c, q + 1, n - 1);
    }
}

/// Earlier declaration prefixes are prefixes of later ones.
proof fn lemma_entity_data_bytes_prefix(decls: Seq<Vec<u8>>, k: int, j: int, eid: int)
    requires
        0 <= k <= j,
    ensures
        entity_data_bytes(decls, k, eid).len() <= entity_data_bytes(decls, j, eid).len(),
        entity_data_bytes(decls, j, eid).subrange(
            0,
            entity_data_bytes(decls, k, eid).len() as int,
        ) == entity_data_bytes(decls, k, eid),
    decreases j - k,
{
    if k < j {
        lemma_entity_data_bytes_prefix(decls, k, j - 1, eid);
        assert(entity_data_bytes(decls, j, eid).subrange(
            0,
            entity_data_bytes(decls, k, eid).len() as int,
        ) =~= entity_data_bytes(decls, j - 1, eid).subrange(
            0,
            entity_data_bytes(decls, k, eid).len() as int,
        ));
    } else {
        assert(entity_data_bytes(decls, j, eid).subrange(
            0,
            entity_data_bytes(decls, k, eid).len() as int,
        ) =~= entity_data_bytes(decls, k, eid));
    }
}

/// Earlier entity prefixes of the data table are prefixes of later ones.
proof fn lemma_module_data_bytes_prefix(es: Seq<EntityDef>, k: int, j: int)
    requires
        0 <= k <= j,
    ensures
        module_data_bytes(es, k).len() <= module_data_bytes(es, j).len(),
        module_data_bytes(es, j).subrange(0, module_data_bytes(es, k).len() as int)
            == module_data_bytes(es, k),
    decreases j - k,
{
    if k < j {
        lemma_module_data_bytes_prefix(es, k, j - 1);
        assert(module_data_bytes(es, j).subrange(0, module_data_bytes(es, k).len() as int)
            =~= module_data_bytes(es, j - 1).subrange(
            0,
            module_data_bytes(es, k).len() as int,
        ));
    } else {
        assert(module_data_bytes(es, j).subrange(0, module_data_bytes(es, k).len() as int)
            =~= module_data_bytes(es, k));
    }
}

/// Parsing the encoded rows of one entity from declaration `k` on yields
/// those rows and then whatever a continuation parse at the segment's end
/// yields.
proof fn lemma_parse_entity_data(
    c: Seq<u8>,
    base: int,
    decls: Seq<Vec<u8>>,
    k: int,
    eid: int,
    m: nat,
    rest: Seq<(u32, Seq<u8>, Hvalue)>,
    end: int,
)
    requires
        0 <= k <= decls.len(),
        0 <= eid <= 255,
        0 <= base,
        base + entity_data_bytes(decls, decls.len() as int, eid).len() <= c.len(),
        c.subrange(
            base,
            base + entity_data_bytes(decls, decls.len() as int, eid).len() as int,
        ) == entity_data_bytes(decls, decls.len() as int, eid),
        forall|j: int| 0 <= j < decls.len() ==> name_zero_free((#[trigger] decls[j])@),
        spec_parse_data_rows(
            c,
            base + entity_data_bytes(decls, decls.len() as int, eid).len() as int,
            m,
        ) == Some((rest, end)),
    ensures
        spec_parse_data_rows(
            c,
            base + entity_data_bytes(decls, k, eid).len() as int,
            ((decls.len() - k) + m) as nat,
        ) == Some((data_rows_view_from(decls, k, eid) + rest, end)),
    decreases decls.len() - k,
{
    let dl = decls.len() as int;
    let total = entity_data_bytes(decls, dl, eid);
    if k == dl {
        assert(data_rows_view_from(decls, k, eid) + rest =~= rest);
    } else {
        let name = decls[k]@;
        let nl = name.len() as int;
        let p = base + entity_data_bytes(decls, k, eid).len() as int;
        lemma_entity_data_bytes_prefix(decls, k, dl, eid);
        lemma_entity_data_bytes_prefix(decls, k + 1, dl, eid);
        assert(entity_data_bytes(decls, k + 1, eid) == entity_data_bytes(decls, k, eid)
            + seq![eid as u8] + name + seq![0u8] + seq![2u8, 4u8]);
        let pk = entity_data_bytes(decls, k, eid).len() as int;
        // The row's bytes, read out of the whole byte string.
        assert forall|t: int| 0 <= t < nl + 4 implies (#[trigger] c[p + t])
            == (seq![eid as u8] + name + seq![0u8] + seq![2u8, 4u8])[t] by {
            assert(total.subrange(0, entity_data_bytes(decls, k + 1, eid).len() as int)[pk + t]
                == total[pk + t]);
            assert(entity_data_bytes(decls, k + 1, eid)[pk + t]
                == (seq![eid as u8] + name + seq![0u8] + seq![2u8, 4u8])[t]);
            assert(c.subrange(base, base + total.len() as int)[pk + t] == c[base + pk + t]);
        }
        let cc = seq![eid as u8] + name + seq![0u8] + seq![2u8, 4u8];
        assert(c[p + 0] == cc[0] && cc[0] == eid as u8);
        assert(c[p] == eid as u8);
        assert forall|t: int| 0 <= t < nl implies (#[trigger] c[(p + 1) + t]) != 0 by {
            assert(c[p + (1 + t)] == cc[1 + t]);
            assert(cc[1 + t] == name[t]);
            assert(name_zero_free(decls[k]@));
        }
        assert(c[p + (1 + nl)] == cc[1 + nl] && cc[1 + nl] == 0);
        assert(c[p + (2 + nl)] == cc[2 + nl] && cc[2 + nl] == 2);
        assert(c[p + (3 + nl)] == cc[3 + nl] && cc[3 + nl] == 4);
        assert(c[p + 1 + nl] == 0);
        assert(c[p + 2 + nl] == 2);
        assert(c[p + 3 + nl] == 4);
        lemma_find_zero_after(c, p + 1, nl);
        assert(c.subrange(p + 1, p + 1 + nl) =~= name) by {
            assert forall|t: int| 0 <= t < nl implies c.subrange(p + 1, p + 1 + nl)[t]
                == name[t] by {
                assert(c[p + (1 + t)] == cc[1 + t]);
                assert(cc[1 + t] == name[t]);
            }
        }
        assert(spec_decode_value(c, p + 2 + nl) == Some((Hvalue::Hu8(4), p + 4 + nl)));
        assert(spec_parse_data_row(c, p) == Some((
            (eid as u32, name, Hvalue::Hu8(4)),
            p + 4 + nl,
        )));
        assert(p + 4 + nl == base + entity_data_bytes(decls, k + 1, eid).len() as int);
        lemma_parse_entity_data(c, base, decls, k + 1, eid, m, rest, end);
        assert(data_rows_view_from(decls, k, eid) + rest
            =~= seq![(eid as u32, name, Hvalue::Hu8(4))] + (data_rows_view_from(
            decls,
            k + 1,
            eid,
        ) + rest));
    }
}

/// Parsing the data rows of the entities from `i` on yields their rows and
/// ends where the data table ends.
proof fn lemma_parse_module_data(c: Seq<u8>, es: Seq<EntityDef>, i: int)
    requires
        0 <= i <= es.len(),
        es.len() <= 256,
        1 + module_data_bytes(es, es.len() as int).len() <= c.len(),
        c.subrange(1, 1 + module_data_bytes(es, es.len() as int).len() as int)
            == module_data_bytes(es, es.len() as int),
        forall|e: int| 0 <= e < es.len()
            ==> (forall|j: int| 0 <= j < (#[trigger] es[e]).data_declarations@.len()
                ==> name_zero_free((#[trigger] es[e].data_declarations@[j])@)),
    ensures
        spec_parse_data_rows(
            c,
            1 + module_data_bytes(es, i).len() as int,
            (data_count(es, es.len() as int) - data_count(es, i)) as nat,
        ) == Some((
            module_data_rows_view(es, i),
            1 + module_data_bytes(es, es.len() as int).len() as int,
        )),
    decreases es.len() - i,
{
    let n = es.len() as int;
    lemma_module_data_bytes_prefix(es, i, n);
    if i == n {
        assert(data_count(es, n) - data_count(es, n) == 0);
    } else {
        lemma_parse_module_data(c, es, i + 1);
        let decls = es[i].data_declarations@;
        let dl = decls.len() as int;
        let base = 1 + module_data_bytes(es, i).len() as int;
        let seg = entity_data_bytes(decls, dl, i);
        lemma_module_data_bytes_prefix(es, i + 1, n);
        assert(module_data_bytes(es, i + 1) == module_data_bytes(es, i) + seg);
        assert(c.subrange(base, base + seg.len() as int) =~= seg) by {
            assert forall|t: int| 0 <= t < seg.len() implies c.subrange(
                base,
                base + seg.len() as int,
            )[t] == seg[t] by {
                let mb = module_data_bytes(es, n);
                let pk = module_data_bytes(es, i).len() as int;
                assert(c.subrange(1, 1 + mb.len() as int)[pk + t] == c[1 + pk + t]);
                assert(mb.subrange(0, module_data_bytes(es, i + 1).len() as int)[pk + t]
                    == mb[pk + t]);
                assert(module_data_bytes(es, i + 1)[pk + t] == seg[t]);
            }
        }
        // Per-entity declaration counts are what `data_count` sums.
        assert(data_count(es, i + 1) == data_count(es, i) + dl);
        lemma_data_count_mono(es, i + 1, n);
        lemma_parse_entity_data(
            c,
            base,
            decls,
            0,
            i,
            (data_count(es, n) - data_count(es, i + 1)) as nat,
            module_data_rows_view(es, i + 1),
            1 + module_data_bytes(es, n).len() as int,
        );
        assert(entity_data_bytes(decls, 0, i).len() == 0);
        assert(module_data_rows_view(es, i)
            == data_rows_view_from(decls, 0, i) + module_data_rows_view(es, i + 1));
    }
}

/// The data-row count only grows with more entities.
proof fn lemma_data_count_mono(es: Seq<EntityDef>, k: int, j: int)
    requires
        0 <= k <= j,
    ensures
        data_count(es, k) <= data_count(es, j),
    decreases j - k,
{
    if k < j {
        lemma_data_count_mono(es, k, j - 1);
    }
}

/// Table round trip, data side: parsing the data table of a generated
/// binary succeeds, reads back one row per declared field with the
/// placeholder initial value, and ends exactly where the function table
/// begins.
pub proof fn lemma_data_table_round_trip(es: Seq<EntityDef>)
    requires
        es.len() <= 256,
        data_count(es, es.len() as int) <= 255,
        forall|e: int| 0 <= e < es.len()
            ==> (forall|j: int| 0 <= j < (#[trigger] es[e]).data_declarations@.len()
                ==> name_zero_free((#[trigger] es[e].data_declarations@[j])@)),
    ensures
        spec_parse_data_table(spec_generate(es), 0) == Some((
            module_data_rows_view(es, 0),
            1 + module_data_bytes(es, es.len() as int).len() as int,
        )),
{
    let n = es.len() as int;
    let b = spec_generate(es);
    let dbytes = seq![data_count(es, n) as u8] + module_data_bytes(es, n);
    let rows = module_rows(es, n);
    let fbytes = seq![rows.len() as u8] + ftable_bytes_upto(
        rows,
        rows.len() as int,
        rows.len() as int,
        dbytes.len() as int,
    );
    assert(b == dbytes + fbytes + module_code(es, n));
    assert(b[0] == data_count(es, n) as u8) by {
        assert((dbytes + fbytes)[0] == dbytes[0]);
        assert(b[0] == (dbytes + fbytes)[0]);
    }
    assert(b.subrange(1, 1 + module_data_bytes(es, n).len() as int)
        =~= module_data_bytes(es, n)) by {
        assert forall|t: int| 0 <= t < module_data_bytes(es, n).len() implies b.subrange(
            1,
            1 + module_data_bytes(es, n).len() as int,
        )[t] == module_data_bytes(es, n)[t] by {
            assert(b[1 + t] == (dbytes + fbytes)[1 + t]);
            assert((dbytes + fbytes)[1 + t] == dbytes[1 + t]);
        }
    }
    lemma_data_count_mono(es, 0, n);
    lemma_parse_module_data(b, es, 0);
    assert(module_data_bytes(es, 0).len() == 0);
    assert(data_count(es, 0) == 0);
}

/// Lexicographic byte-string order.
pub open spec fn lex_le(a: Seq<u8>, b: Seq<u8>) -> bool
    decreases a.len(),
{
    if a.len() == 0 {
        true
    } else if b.len() == 0 {
        false
    } else if a[0] < b[0] {
        true
    } else if a[0] > b[0] {
        false
    } else {
        lex_le(a.subrange(1, a.len() as int), b.subrange(1, b.len() as int))
    }
}

/// An entity's functions stand in lexicographic order of name.
pub open spec fn funcs_sorted(fs: Seq<FunctionDef>) -> bool {
    forall|j: int| 1 <= j < fs.len() ==> lex_le((#[trigger] fs[j - 1]).name@, fs[j].name@)
}

/// Every declared data-field name is free of zero bytes.
pub open spec fn all_names_zero_free(decls: Seq<Vec<u8>>) -> bool {
    forall|j: int| 0 <= j < decls.len() ==> name_zero_free((#[trigger] decls[j])@)
}

/// The function-location rows fit the binary format's widths against a code
/// region of `code_len` bytes and a table beginning at header offset `hoff`.
pub open spec fn ftable_widths_ok(
    rows: Seq<(u32, u32, usize, usize)>,
    code_len: int,
    hoff: int,
) -> bool {
    &&& rows.len() <= 255
    &&& hoff <= 65535
    &&& forall|j: int| 0 <= j < rows.len()
        ==> row_in_widths(#[trigger] rows[j], rows.len() as int, hoff)
            && rows[j].2 + rows[j].3 <= code_len
}

/// The code generator: a growing header and code buffer, the recorded
/// function locations, and the collected data-table rows.
pub struct GenCode {
    pub header: Vec<u8>,
    pub code: Vec<u8>,
    /// `(entity_id, func_id, start, length)` per generated function, with
    /// `start` relative to the code region until the table is built.
    pub entity_function_locations: Vec<(u32, u32, usize, usize)>,
    /// Encoded data-table rows, appended as entities are visited.
    pub entity_data_values: Vec<u8>,
    /// The number of encoded data-table rows.
    pub entity_data_count: u32,
    pub current_entity_id: u32,
    pub current_func_id: u32,
}

impl GenCode {
    /// An empty generator.
    pub fn new() -> (r: GenCode)
        ensures
            r.header@.len() == 0,
            r.code@.len() == 0,
            r.entity_function_locations@.len() == 0,
            r.entity_data_values@.len() == 0,
            r.entity_data_count == 0,
            r.current_entity_id == 0,
            r.current_func_id == 0,
    {
        GenCode {
            header: Vec::new(),
            code: Vec::new(),
            entity_function_locations: Vec::new(),
            entity_data_values: Vec::new(),
            entity_data_count: 0,
            current_entity_id: 0,
            current_func_id: 0,
        }
    }

    /// Appends a byte buffer, draining it.
    pub fn emit_bytes_vec(l: &mut Vec<u8>, bytes: &mut Vec<u8>)
        ensures
            final(l)@ == old(l)@ + old(bytes)@,
            final(bytes)@.len() == 0,
    {
        l.append(bytes);
    }

    /// Appends one byte.
    pub fn emit_u8(l: &mut Vec<u8>, v: u8)
        ensures
            final(l)@ == old(l)@ + seq![v],
    {
        l.push(v);
        proof {
            assert(final(l)@ =~= old(l)@ + seq![v]);
        }
    }

    /// Appends a 16-bit value, big endian.
    pub fn emit_u16(l: &mut Vec<u8>, v: u16)
        ensures
            final(l)@ == old(l)@ + seq![(v / 256) as u8, (v % 256) as u8],
    {
        l.push((v / 256) as u8);
        l.push((v % 256) as u8);
        proof {
            assert(final(l)@ =~= old(l)@ + seq![(v / 256) as u8, (v % 256) as u8]);
        }
    }

    /// Appends one encoded instruction to the code buffer.
    fn emit_op(&mut self, op: Op)
        requires
            op_encodable(op@),
        ensures
            final(self).code@ == old(self).code@ + spec_encode_op(op@),
            final(self).header == old(self).header,
            final(self).entity_function_locations == old(self).entity_function_locations,
            final(self).entity_data_values == old(self).entity_data_values,
            final(self).entity_data_count == old(self).entity_data_count,
            final(self).current_entity_id == old(self).current_entity_id,
            final(self).current_func_id == old(self).current_func_id,
    {
        let mut bytes = encode_instruction(&op);
        Self::emit_bytes_vec(&mut self.code, &mut bytes);
    }

    /// Lowers one resolved AST node to instructions, appended to the code
    /// buffer.
    fn visit_node(&mut self, n: &AstNode)
        requires
            node_wf(*n),
        ensures
            final(self).code@ == old(self).code@ + encode_ops(node_ops(*n)),
            final(self).header == old(self).header,
            final(self).entity_function_locations == old(self).entity_function_locations,
            final(self).entity_data_values == old(self).entity_data_values,
            final(self).entity_data_count == old(self).entity_data_count,
            final(self).current_entity_id == old(self).current_entity_id,
            final(self).current_func_id == old(self).current_func_id,
        decreases *n,
    {
        match n {
            AstNode::Value(v) => {
                self.emit_op(Op::Push(*v));
                proof {
                    lemma_encode_ops_single(OpG::Push(*v));
                }
            },
            AstNode::Identifier(id) => {
                let name = clone_bytes(&id.original_sym);
                if matches!(id.target, IdentifierTarget::LocalVar) {
                    self.emit_op(Op::Lload(name));
                    proof {
                        lemma_encode_ops_single(OpG::Lload(id.original_sym@));
                    }
                } else {
                    self.emit_op(Op::Eload(name));
                    proof {
                        lemma_encode_ops_single(OpG::Eload(id.original_sym@));
                    }
                }
            },
            AstNode::Operator(k, l, r) => {
                self.visit_node(l);
                self.visit_node(r);
                let op = match k {
                    BinOp::Add => Op::Add,
                    BinOp::Sub => Op::Sub,
                    BinOp::Mul => Op::Mul,
                    BinOp::Div => Op::Div,
                };
                self.emit_op(op);
                proof {
                    lemma_encode_ops_single(arith_op(*k));
                    lemma_encode_ops_app(node_ops(**l), node_ops(**r));
                    lemma_encode_ops_app(node_ops(**l) + node_ops(**r), seq![arith_op(*k)]);
                    assert(self.code@ =~= old(self).code@ + encode_ops(node_ops(*n)));
                }
            },
            AstNode::Definition(id, e) | AstNode::Assignment(id, e) => {
                self.visit_node(e);
                let name = clone_bytes(&id.original_sym);
                let ghost sop: OpG;
                if matches!(id.target, IdentifierTarget::LocalVar) {
                    self.emit_op(Op::Lstore(name));
                    proof {
                        sop = OpG::Lstore(id.original_sym@);
                    }
                } else {
                    self.emit_op(Op::Estore(name));
                    proof {
                        sop = OpG::Estore(id.original_sym@);
                    }
                }
                proof {
                    lemma_encode_ops_single(sop);
                    lemma_encode_ops_app(node_ops(**e), seq![sop]);
                    assert(self.code@ =~= old(self).code@ + encode_ops(node_ops(*n)));
                }
            },
            AstNode::Await(e) => {
                self.visit_node(e);
                self.emit_op(Op::Await);
                proof {
                    lemma_encode_ops_single(OpG::Await);
                    lemma_encode_ops_app(node_ops(**e), seq![OpG::Await]);
                    assert(self.code@ =~= old(self).code@ + encode_ops(node_ops(*n)));
                }
            },
            AstNode::Return(e) => {
                self.visit_node(e);
                self.emit_op(Op::Ret);
                proof {
                    lemma_encode_ops_single(OpG::Ret);
                    lemma_encode_ops_app(node_ops(**e), seq![OpG::Ret]);
                    assert(self.code@ =~= old(self).code@ + encode_ops(node_ops(*n)));
                }
            },
            AstNode::Message(_, fid) => {
                self.emit_op(Op::Message(*fid));
                proof {
                    lemma_encode_ops_single(OpG::Message(*fid));
                }
            },
            AstNode::ForeignCall(f) => {
                self.emit_op(Op::ForeignCall(*f));
                self.emit_op(Op::Ret);
                proof {
                    lemma_encode_ops_single(OpG::Ret);
                    lemma_encode_ops_app(seq![OpG::ForeignCall(*f)], seq![OpG::Ret]);
                    assert(encode_ops(seq![OpG::ForeignCall(*f)])
                        == spec_encode_op(OpG::ForeignCall(*f)) + encode_ops(
                            Seq::<OpG>::empty(),
                        )) by {
                        assert(seq![OpG::ForeignCall(*f)].subrange(1, 1) =~= Seq::<OpG>::empty());
                    }
                    assert(seq![OpG::ForeignCall(*f), OpG::Ret]
                        =~= seq![OpG::ForeignCall(*f)] + seq![OpG::Ret]);
                    assert(self.code@ =~= old(self).code@ + encode_ops(node_ops(*n)));
                }
            },
        }
    }

    /// Lowers one function body and records its `(start, length)` in the
    /// function-location list under the current entity and function ids.
    #[verifier::loop_isolation(false)]
    pub fn visit_function(&mut self, name: &Vec<u8>, body: &Vec<AstNode>)
        requires
            body_wf(body@),
            old(self).current_func_id < u32::MAX,
        ensures
            final(self).code@ == old(self).code@ + encode_ops(body_ops(body@)),
            final(self).entity_function_locations@
                == old(self).entity_function_locations@.push(
                (
                    old(self).current_entity_id,
                    old(self).current_func_id,
                    old(self).code@.len() as usize,
                    encode_ops(body_ops(body@)).len() as usize,
                ),
            ),
            final(self).current_func_id == old(self).current_func_id + 1,
            final(self).header == old(self).header,
            final(self).entity_data_values == old(self).entity_data_values,
            final(self).entity_data_count == old(self).entity_data_count,
            final(self).current_entity_id == old(self).current_entity_id,
    {
        let start = self.code.len();
        let mut i: usize = 0;
        while i < body.len()
            invariant
                i <= body@.len(),
                self.code@ == old(self).code@ + encode_ops(body_ops_upto(body@, i as int)),
                self.header == old(self).header,
                self.entity_function_locations == old(self).entity_function_locations,
                self.entity_data_values == old(self).entity_data_values,
                self.entity_data_count == old(self).entity_data_count,
                self.current_entity_id == old(self).current_entity_id,
                self.current_func_id == old(self).current_func_id,
            decreases body@.len() - i,
        {
            self.visit_node(&body[i]);
            i = i + 1;
            proof {
                lemma_encode_ops_app(body_ops_upto(body@, i - 1), node_ops(body@[i - 1]));
                assert(self.code@ =~= old(self).code@ + encode_ops(
                    body_ops_upto(body@, i as int),
                ));
            }
        }
        let fun_len = self.code.len() - start;
        self.entity_function_locations.push(
            (self.current_entity_id, self.current_func_id, start, fun_len),
        );
        self.current_func_id = self.current_func_id + 1;
        proof {
            assert(self.code@.len() - start == encode_ops(body_ops(body@)).len());
        }
    }

    /// Appends the data-table rows of one entity's declarations, each with
    /// the placeholder initial value `U8(4)`. Fails on a name holding a zero
    /// byte, which the zero-terminated row format cannot carry.
    #[verifier::loop_isolation(false)]
    fn append_data_rows(&mut self, decls: &Vec<Vec<u8>>) -> (r: Result<(), CompileError>)
        requires
            old(self).current_entity_id <= 255,
            old(self).entity_data_count as int + decls@.len() <= u32::MAX,
        ensures
            final(self).header == old(self).header,
            final(self).code == old(self).code,
            final(self).entity_function_locations == old(self).entity_function_locations,
            final(self).current_entity_id == old(self).current_entity_id,
            final(self).current_func_id == old(self).current_func_id,
            match r {
                Ok(()) => {
                    &&& final(self).entity_data_values@ == old(self).entity_data_values@
                        + entity_data_bytes(
                        decls@,
                        decls@.len() as int,
                        old(self).current_entity_id as int,
                    )
                    &&& final(self).entity_data_count
                        == old(self).entity_data_count + decls@.len()
                    &&& all_names_zero_free(decls@)
                },
                Err(e) => e == CompileError::BadName && !all_names_zero_free(decls@),
            },
    {
        let mut i: usize = 0;
        while i < decls.len()
            invariant
                i <= decls@.len(),
                self.entity_data_values@ == old(self).entity_data_values@ + entity_data_bytes(
                    decls@,
                    i as int,
                    old(self).current_entity_id as int,
                ),
                self.entity_data_count as int
                    == old(self).entity_data_count as int + i,
                forall|j: int| 0 <= j < i ==> name_zero_free((#[trigger] decls@[j])@),
                self.header == old(self).header,
                self.code == old(self).code,
                self.entity_function_locations == old(self).entity_function_locations,
                self.current_entity_id == old(self).current_entity_id,
                self.current_func_id == old(self).current_func_id,
            decreases decls@.len() - i,
        {
            let name = &decls[i];
            let mut k: usize = 0;
            while k < name.len()
                invariant
                    k <= name@.len(),
                    forall|j: int| 0 <= j < k ==> name@[j] != 0,
                decreases name@.len() - k,
            {
                if name[k] == 0 {
                    proof {
                        assert(!name_zero_free(decls@[i as int]@));
                    }
                    return Err(CompileError::BadName);
                }
                k = k + 1;
            }
            proof {
                assert(name_zero_free(decls@[i as int]@));
            }
            Self::emit_u8(&mut self.entity_data_values, self.current_entity_id as u8);
            let mut nb = clone_bytes(name);
            Self::emit_bytes_vec(&mut self.entity_data_values, &mut nb);
            Self::emit_u8(&mut self.entity_data_values, 0);
            let mut vb = crate::opcodes::encode_value(&Hvalue::Hu8(4));
            Self::emit_bytes_vec(&mut self.entity_data_values, &mut vb);
            self.entity_data_count = self.entity_data_count + 1;
            i = i + 1;
            proof {
                assert(self.entity_data_values@ =~= old(self).entity_data_values@
                    + entity_data_bytes(
                    decls@,
                    i as int,
                    old(self).current_entity_id as int,
                ));
            }
        }
        Ok(())
    }

    /// Whether `a` is lexicographically at most `b`.
    #[verifier::loop_isolation(false)]
    fn bytes_le(a: &Vec<u8>, b: &Vec<u8>) -> (r: bool)
        ensures
            r == lex_le(a@, b@),
    {
        let mut i: usize = 0;
        let n = if a.len() < b.len() {
            a.len()
        } else {
            b.len()
        };
        proof {
            assert(a@.subrange(0, a@.len() as int) =~= a@);
            assert(b@.subrange(0, b@.len() as int) =~= b@);
        }
        while i < n
            invariant
                i <= n,
                n == if a@.len() < b@.len() {
                    a@.len()
                } else {
                    b@.len()
                },
                lex_le(a@, b@) == lex_le(
                    a@.subrange(i as int, a@.len() as int),
                    b@.subrange(i as int, b@.len() as int),
                ),
            decreases n - i,
        {
            let ghost ar = a@.subrange(i as int, a@.len() as int);
            let ghost br = b@.subrange(i as int, b@.len() as int);
            if a[i] < b[i] {
                proof {
                    assert(ar[0] == a@[i as int] && br[0] == b@[i as int]);
                }
                return true;
            }
            if a[i] > b[i] {
                proof {
                    assert(ar[0] == a@[i as int] && br[0] == b@[i as int]);
                }
                return false;
            }
            i = i + 1;
            proof {
                assert(ar[0] == a@[i - 1] && br[0] == b@[i - 1]);
                assert(ar.subrange(1, ar.len() as int)
                    =~= a@.subrange(i as int, a@.len() as int));
                assert(br.subrange(1, br.len() as int)
                    =~= b@.subrange(i as int, b@.len() as int));
            }
        }
        proof {
            if a.len() <= b.len() {
                assert(a@.subrange(n as int, a@.len() as int).len() == 0);
            } else {
                assert(b@.subrange(n as int, b@.len() as int).len() == 0);
                assert(a@.subrange(n as int, a@.len() as int).len() > 0);
            }
        }
        a.len() <= b.len()
    }

    /// Lowers one entity definition: its data declarations join the data
    /// table, then its functions are lowered in the order given, which must
    /// be lexicographic by name so the emitted binary is reproducible.
    #[verifier::loop_isolation(false)]
    pub fn visit_entity_def(&mut self, def: &EntityDef) -> (r: Result<(), CompileError>)
        requires
            forall|j: int| 0 <= j < def.functions@.len()
                ==> body_wf((#[trigger] def.functions@[j]).body@),
            old(self).current_entity_id < 256,
            old(self).current_func_id as int + def.functions@.len() <= u32::MAX,
            old(self).entity_data_count as int + def.data_declarations@.len() <= u32::MAX,
        ensures
            final(self).header == old(self).header,
            r is Ok <==> (funcs_sorted(def.functions@) && all_names_zero_free(
                def.data_declarations@,
            )),
            r is Err ==> (r == Err::<(), CompileError>(CompileError::FunctionsUnsorted)
                && !funcs_sorted(def.functions@)) || (r == Err::<(), CompileError>(
                CompileError::BadName,
            ) && !all_names_zero_free(def.data_declarations@)),
            match r {
                Ok(()) => {
                    let fs = def.functions@;
                    &&& final(self).code@ == old(self).code@ + funcs_code_upto(
                        fs,
                        fs.len() as int,
                    )
                    &&& final(self).entity_function_locations@
                        == old(self).entity_function_locations@ + entity_rows(
                        fs,
                        fs.len() as int,
                        old(self).current_entity_id as int,
                        old(self).current_func_id as int,
                        old(self).code@.len() as int,
                    )
                    &&& final(self).entity_data_values@ == old(self).entity_data_values@
                        + entity_data_bytes(
                        def.data_declarations@,
                        def.data_declarations@.len() as int,
                        old(self).current_entity_id as int,
                    )
                    &&& final(self).entity_data_count
                        == old(self).entity_data_count + def.data_declarations@.len()
                    &&& final(self).current_entity_id == old(self).current_entity_id + 1
                    &&& final(self).current_func_id
                        == old(self).current_func_id + def.functions@.len()
                },
                Err(_) => true,
            },
    {
        // Reproducibility: reject an entity whose functions are out of
        // lexicographic order instead of silently renumbering them.
        let mut s: usize = 1;
        while s < def.functions.len()
            invariant
                1 <= s,
                forall|t: int| 1 <= t < s
                    ==> lex_le((#[trigger] def.functions@[t - 1]).name@, def.functions@[t].name@),
            decreases def.functions@.len() - s,
        {
            if !Self::bytes_le(&def.functions[s - 1].name, &def.functions[s].name) {
                proof {
                    assert(!lex_le(def.functions@[s as int - 1].name@, def.functions@[s as int].name@));
                }
                return Err(CompileError::FunctionsUnsorted);
            }
            s = s + 1;
        }
        proof {
            assert(funcs_sorted(def.functions@));
        }
        match self.append_data_rows(&def.data_declarations) {
            Ok(()) => {},
            Err(e) => {
                return Err(e);
            },
        }
        let ghost mid = *self;
        let mut f: usize = 0;
        while f < def.functions.len()
            invariant
                f <= def.functions@.len(),
                self.code@ == mid.code@ + funcs_code_upto(def.functions@, f as int),
                self.entity_function_locations@ == mid.entity_function_locations@ + entity_rows(
                    def.functions@,
                    f as int,
                    mid.current_entity_id as int,
                    mid.current_func_id as int,
                    mid.code@.len() as int,
                ),
                self.current_func_id as int == mid.current_func_id as int + f,
                self.header == mid.header,
                self.entity_data_values == mid.entity_data_values,
                self.entity_data_count == mid.entity_data_count,
                self.current_entity_id == mid.current_entity_id,
                mid.current_func_id as int + def.functions@.len() <= u32::MAX,
                mid.code@.len() == old(self).code@.len(),
            decreases def.functions@.len() - f,
        {
            self.visit_function(&def.functions[f].name, &def.functions[f].body);
            f = f + 1;
            proof {
                assert(self.code@ =~= mid.code@ + funcs_code_upto(def.functions@, f as int));
                assert(self.entity_function_locations@ =~= mid.entity_function_locations@
                    + entity_rows(
                    def.functions@,
                    f as int,
                    mid.current_entity_id as int,
                    mid.current_func_id as int,
                    mid.code@.len() as int,
                ));
            }
        }
        self.current_entity_id = self.current_entity_id + 1;
        Ok(())
    }

    /// Builds the entity-data table: its one-byte row count, then the
    /// collected rows, appended to the header.
    pub fn build_entity_data_table(&mut self) -> (r: Result<(), CompileError>)
        ensures
            final(self).code == old(self).code,
            final(self).entity_function_locations == old(self).entity_function_locations,
            final(self).current_entity_id == old(self).current_entity_id,
            final(self).current_func_id == old(self).current_func_id,
            match r {
                Ok(()) => {
                    &&& old(self).entity_data_count <= 255
                    &&& final(self).header@ == old(self).header@ + seq![
                        old(self).entity_data_count as u8,
                    ] + old(self).entity_data_values@
                },
                Err(e) => e == CompileError::TooLarge && old(self).entity_data_count > 255
                    && *final(self) == *old(self),
            },
    {
        if self.entity_data_count > 255 {
            return Err(CompileError::TooLarge);
        }
        Self::emit_u8(&mut self.header, self.entity_data_count as u8);
        Self::emit_bytes_vec(&mut self.header, &mut self.entity_data_values);
        proof {
            assert(self.header@ =~= old(self).header@ + seq![old(self).entity_data_count as u8]
                + old(self).entity_data_values@);
        }
        Ok(())
    }

    /// Builds the entity-function-location table and appends it to the
    /// header: its one-byte row count, then one six-byte row per function
    /// whose start is made absolute into the final binary.
    #[verifier::loop_isolation(false)]
    pub fn build_entity_function_location_table(&mut self) -> (r: Result<(), CompileError>)
        ensures
            final(self).code == old(self).code,
            final(self).entity_data_values == old(self).entity_data_values,
            final(self).entity_data_count == old(self).entity_data_count,
            final(self).current_entity_id == old(self).current_entity_id,
            final(self).current_func_id == old(self).current_func_id,
            final(self).entity_function_locations == old(self).entity_function_locations,
            r is Ok <==> ftable_widths_ok(
                old(self).entity_function_locations@,
                old(self).code@.len() as int,
                old(self).header@.len() as int,
            ),
            match r {
                Ok(()) => {
                    let rows = old(self).entity_function_locations@;
                    &&& rows.len() <= 255
                    &&& final(self).header@ == old(self).header@ + seq![rows.len() as u8]
                        + ftable_bytes_upto(
                        rows,
                        rows.len() as int,
                        rows.len() as int,
                        old(self).header@.len() as int,
                    )
                    &&& forall|j: int| 0 <= j < rows.len()
                        ==> (#[trigger] rows[j]).2 + rows[j].3 <= old(self).code@.len()
                            && rows[j].2 + 1 + rows.len() * 6 + old(self).header@.len() + rows[j].3
                                <= 65535 + rows[j].3
                },
                Err(e) => e == CompileError::TooLarge,
            },
    {
        let loc_offset = self.header.len();
        let sz = self.entity_function_locations.len();
        if sz > 255 {
            return Err(CompileError::TooLarge);
        }
        if loc_offset > 65535 {
            return Err(CompileError::TooLarge);
        }
        let mut efl: Vec<u8> = Vec::new();
        let mut j: usize = 0;
        while j < sz
            invariant
                j <= sz,
                sz == self.entity_function_locations@.len(),
                loc_offset == self.header@.len(),
                sz <= 255,
                efl@ == ftable_bytes_upto(
                    self.entity_function_locations@,
                    j as int,
                    sz as int,
                    loc_offset as int,
                ),
                forall|k: int| 0 <= k < j
                    ==> (#[trigger] self.entity_function_locations@[k]).2
                        + self.entity_function_locations@[k].3 <= self.code@.len()
                        && row_in_widths(
                        self.entity_function_locations@[k],
                        sz as int,
                        loc_offset as int,
                    ),
                *self == *old(self),
            decreases sz - j,
        {
            let row = self.entity_function_locations[j];
            if row.0 > 255 || row.1 > 255 {
                return Err(CompileError::TooLarge);
            }
            if row.2 > self.code.len() || self.code.len() - row.2 < row.3 {
                return Err(CompileError::TooLarge);
            }
            if row.3 > 65535 {
                return Err(CompileError::TooLarge);
            }
            if row.2 > 65535 {
                return Err(CompileError::TooLarge);
            }
            let abs = row.2 + 1 + sz * 6 + loc_offset;
            if abs > 65535 {
                return Err(CompileError::TooLarge);
            }
            Self::emit_u8(&mut efl, row.0 as u8);
            Self::emit_u8(&mut efl, row.1 as u8);
            Self::emit_u16(&mut efl, abs as u16);
            Self::emit_u16(&mut efl, row.3 as u16);
            j = j + 1;
            proof {
                assert(efl@ =~= ftable_bytes_upto(
                    self.entity_function_locations@,
                    j as int,
                    sz as int,
                    loc_offset as int,
                ));
            }
        }
        Self::emit_u8(&mut self.header, sz as u8);
        Self::emit_bytes_vec(&mut self.header, &mut efl);
        proof {
            assert(self.header@ =~= old(self).header@ + seq![sz as u8] + ftable_bytes_upto(
                old(self).entity_function_locations@,
                sz as int,
                sz as int,
                loc_offset as int,
            ));
        }
        Ok(())
    }
}

/// A single instruction encodes as itself.
proof fn lemma_encode_ops_single(op: OpG)
    ensures
        encode_ops(seq![op]) == spec_encode_op(op),
{
    assert(seq![op].subrange(1, 1) =~= Seq::<OpG>::empty());
    assert(encode_ops(Seq::<OpG>::empty()) == Seq::<u8>::empty());
    assert(seq![op][0] == op);
    assert(spec_encode_op(op) + Seq::<u8>::empty() =~= spec_encode_op(op));
}

/// A resolved module the generator accepts: few enough entities, each with
/// sorted functions, zero-free data names and byte-sized counts, and tables
/// within the format's widths.
pub open spec fn generate_ok(es: Seq<EntityDef>) -> bool {
    let n = es.len() as int;
    &&& es.len() <= 255
    &&& forall|e: int| 0 <= e < es.len()
        ==> funcs_sorted((#[trigger] es[e]).functions@)
            && all_names_zero_free(es[e].data_declarations@) && es[e].functions@.len() <= 255
            && es[e].data_declarations@.len() <= 255
    &&& data_count(es, n) <= 255
    &&& ftable_widths_ok(
        module_rows(es, n),
        module_code(es, n).len() as int,
        1 + module_data_bytes(es, n).len() as int,
    )
}

/// Generates the binary for a resolved module: the header tables followed
/// by the code region, exactly `spec_generate` of the entity definitions.
#[verifier::loop_isolation(false)]
pub fn generate(module: &Module) -> (r: Result<Vec<u8>, CompileError>)
    requires
        module_resolved(*module),
    ensures
        r is Ok <==> generate_ok(module.entity_defs@),
        match r {
            Ok(b) => b@ == spec_generate(module.entity_defs@),
            Err(_) => true,
        },
{
    let es = &module.entity_defs;
    if es.len() > 255 {
        return Err(CompileError::TooLarge);
    }
    let mut gc = GenCode::new();
    let mut i: usize = 0;
    while i < es.len()
        invariant
            i <= es@.len(),
            es@.len() <= 255,
            gc.header@.len() == 0,
            gc.code@ == module_code(es@, i as int),
            gc.entity_function_locations@ == module_rows(es@, i as int),
            gc.entity_data_values@ == module_data_bytes(es@, i as int),
            gc.entity_data_count as int == data_count(es@, i as int),
            gc.current_entity_id == i,
            gc.current_func_id as int == func_count(es@, i as int),
            module_resolved(*module),
            es == &module.entity_defs,
            forall|e: int| 0 <= e < i
                ==> funcs_sorted((#[trigger] es@[e]).functions@)
                    && all_names_zero_free(es@[e].data_declarations@)
                    && es@[e].functions@.len() <= 255
                    && es@[e].data_declarations@.len() <= 255,
            func_count(es@, i as int) <= 255 * i,
            data_count(es@, i as int) <= 255 * i,
        decreases es@.len() - i,
    {
        if gc.current_func_id > u32::MAX - 256 {
            proof {
                assert(false);
            }
            return Err(CompileError::TooLarge);
        }
        if es[i].functions.len() > 255 {
            return Err(CompileError::TooLarge);
        }
        if gc.entity_data_count > u32::MAX - 256 {
            proof {
                assert(false);
            }
            return Err(CompileError::TooLarge);
        }
        if es[i].data_declarations.len() > 255 {
            return Err(CompileError::TooLarge);
        }
        match gc.visit_entity_def(&es[i]) {
            Ok(()) => {},
            Err(e) => {
                return Err(e);
            },
        }
        i = i + 1;
    }
    match gc.build_entity_data_table() {
        Ok(()) => {},
        Err(e) => {
            return Err(e);
        },
    }
    match gc.build_entity_function_location_table() {
        Ok(()) => {},
        Err(e) => {
            return Err(e);
        },
    }
    let mut binary = gc.header;
    let mut code = gc.code;
    GenCode::emit_bytes_vec(&mut binary, &mut code);
    proof {
        assert(binary@ =~= spec_generate(module.entity_defs@));
    }
    Ok(binary)
}

/// Compiles a module: resolves every identifier in place, then generates
/// the binary. On success the binary is exactly `spec_generate` of the
/// resolved entity definitions, so compilation of a fixed resolved AST is
/// byte-identical across runs.
pub fn compile(module: &mut Module) -> (r: Result<Vec<u8>, CompileError>)
    ensures
        r is Ok <==> (module_resolve_ok(*old(module)) && generate_ok(
            final(module).entity_defs@,
        )),
        match r {
            Ok(b) => module_resolved(*final(module)) && b@ == spec_generate(
                final(module).entity_defs@,
            ),
            Err(_) => true,
        },
{
    match resolve_module(module) {
        Ok(()) => {},
        Err(e) => {
            return Err(e);
        },
    }
    generate(module)
}

} // verus!
