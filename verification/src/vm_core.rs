//! The runtime data model: addresses, messages, entities, promises, stack
//! frames and the vat that owns them all.

use vstd::prelude::*;
use vstd::std_specs::vec::vec_index_mut;
use crate::opcodes::{Hvalue, VmError};
use crate::ast::EntityDef;

verus! {

/// Compares two byte strings.
pub fn bytes_eq(a: &Vec<u8>, b: &Vec<u8>) -> (r: bool)
    ensures
        r == (a@ == b@),
{
    if a.len() != b.len() {
        proof {
            assert(a@ != b@);
        }
        return false;
    }
    let mut i: usize = 0;
    while i < a.len()
        invariant
            i <= a@.len(),
            a@.len() == b@.len(),
            forall|j: int| 0 <= j < i ==> a@[j] == b@[j],
        decreases a@.len() - i,
    {
        if a[i] != b[i] {
            proof {
                assert(a@[i as int] != b@[i as int]);
            }
            return false;
        }
        i = i + 1;
    }
    proof {
        assert(a@ =~= b@);
    }
    true
}

/// Copies a byte string.
pub fn clone_bytes(v: &Vec<u8>) -> (r: Vec<u8>)
    ensures
        r@ == v@,
{
    let mut out: Vec<u8> = Vec::new();
    let mut i: usize = 0;
    while i < v.len()
        invariant
            i <= v@.len(),
            out@ == v@.subrange(0, i as int),
        decreases v@.len() - i,
    {
        out.push(v[i]);
        i = i + 1;
        proof {
            assert(v@.subrange(0, i as int) =~= v@.subrange(0, i - 1) + seq![v@[i - 1]]);
        }
    }
    proof {
        assert(v@.subrange(0, v@.len() as int) =~= v@);
    }
    out
}

/// The first binding of `k` in `s` at or after position `i`: earlier entries
/// shadow later ones.
pub open spec fn first_match(s: Seq<(Vec<u8>, Hvalue)>, k: Seq<u8>, i: int) -> Option<Hvalue>
    decreases s.len() - i,
{
    if i < 0 || i >= s.len() {
        None
    } else if s[i].0@ == k {
        Some(s[i].1)
    } else {
        first_match(s, k, i + 1)
    }
}

/// A mapping from names to values, modelled as `Map<Seq<u8>, Hvalue>`.
/// Backs both a frame's locals and an entity's data.
pub struct VarTable {
    pairs: Vec<(Vec<u8>, Hvalue)>,
}

impl View for VarTable {
    type V = Map<Seq<u8>, Hvalue>;

    closed spec fn view(&self) -> Map<Seq<u8>, Hvalue> {
        Map::new(
            |k: Seq<u8>| first_match(self.pairs@, k, 0) is Some,
            |k: Seq<u8>| first_match(self.pairs@, k, 0)->Some_0,
        )
    }
}

/// Unchanged entries below `i` leave `first_match` from `i` unchanged.
proof fn lemma_fm_same(s: Seq<(Vec<u8>, Hvalue)>, t: Seq<(Vec<u8>, Hvalue)>, k: Seq<u8>, i: int)
    requires
        t.len() == s.len(),
        0 <= i,
        forall|j: int| i <= j < s.len() ==> t[j] == s[j],
    ensures
        first_match(t, k, i) == first_match(s, k, i),
    decreases s.len() - i,
{
    if i < s.len() {
        lemma_fm_same(s, t, k, i + 1);
    }
}

/// Replacing the first binding of `k` updates the map at `k` and nothing else.
proof fn lemma_fm_update(
    s: Seq<(Vec<u8>, Hvalue)>,
    t: Seq<(Vec<u8>, Hvalue)>,
    k: Seq<u8>,
    v: Hvalue,
    idx: int,
    k2: Seq<u8>,
    i: int,
)
    requires
        0 <= i <= idx < s.len(),
        t.len() == s.len(),
        t[idx].0@ == k,
        t[idx].1 == v,
        forall|j: int| 0 <= j < s.len() && j != idx ==> t[j] == s[j],
        s[idx].0@ == k,
        forall|j: int| 0 <= j < idx ==> s[j].0@ != k,
    ensures
        first_match(t, k2, i) == if k2 == k {
            Some(v)
        } else {
            first_match(s, k2, i)
        },
    decreases s.len() - i,
{
    if i == idx {
        if k2 != k {
            lemma_fm_same(s, t, k2, i + 1);
        }
    } else {
        lemma_fm_update(s, t, k, v, idx, k2, i + 1);
    }
}

/// Appending a binding for an absent `k` inserts `k` and nothing else.
proof fn lemma_fm_push(
    s: Seq<(Vec<u8>, Hvalue)>,
    t: Seq<(Vec<u8>, Hvalue)>,
    k: Seq<u8>,
    v: Hvalue,
    k2: Seq<u8>,
    i: int,
)
    requires
        0 <= i <= s.len(),
        t.len() == s.len() + 1,
        forall|j: int| 0 <= j < s.len() ==> t[j] == s[j],
        t[s.len() as int].0@ == k,
        t[s.len() as int].1 == v,
        forall|j: int| 0 <= j < s.len() ==> s[j].0@ != k,
    ensures
        first_match(t, k2, i) == if k2 == k {
            Some(v)
        } else {
            first_match(s, k2, i)
        },
    decreases s.len() - i,
{
    if i < s.len() {
        lemma_fm_push(s, t, k, v, k2, i + 1);
    } else {
        assert(first_match(s, k2, i) is None);
        if k2 == k {
            assert(first_match(t, k2, i) == Some(v));
        } else {
            assert(first_match(t, k2, i) == first_match(t, k2, i + 1));
            assert(first_match(t, k2, i + 1) is None);
        }
    }
}

impl VarTable {
    /// An empty table.
    pub fn new() -> (r: VarTable)
        ensures
            r@ == Map::<Seq<u8>, Hvalue>::empty(),
    {
        let r = VarTable { pairs: Vec::new() };
        proof {
            assert(r@ =~= Map::<Seq<u8>, Hvalue>::empty());
        }
        r
    }

    /// Looks a name up.
    pub fn get(&self, name: &Vec<u8>) -> (r: Option<Hvalue>)
        ensures
            r == if self@.contains_key(name@) {
                Some(self@[name@])
            } else {
                None::<Hvalue>
            },
    {
        let mut i: usize = 0;
        while i < self.pairs.len()
            invariant
                0 <= i <= self.pairs@.len(),
                first_match(self.pairs@, name@, 0) == first_match(self.pairs@, name@, i as int),
            decreases self.pairs@.len() - i,
        {
            if bytes_eq(&self.pairs[i].0, name) {
                return Some(self.pairs[i].1);
            }
            i = i + 1;
        }
        None
    }

    /// Binds a name, overwriting any existing binding.
    pub fn set(&mut self, name: &Vec<u8>, v: Hvalue)
        ensures
            final(self)@ == old(self)@.insert(name@, v),
    {
        let ghost s = self.pairs@;
        let mut i: usize = 0;
        while i < self.pairs.len()
            invariant
                0 <= i <= self.pairs@.len(),
                self.pairs@ == s,
                s == old(self).pairs@,
                forall|j: int| 0 <= j < i ==> s[j].0@ != name@,
            decreases self.pairs@.len() - i,
        {
            if bytes_eq(&self.pairs[i].0, name) {
                let key = clone_bytes(name);
                self.pairs.set(i, (key, v));
                proof {
                    assert(self.pairs@[i as int].0@ == name@);
                    assert(self.pairs@[i as int].1 == v);
                    assert(s[i as int].0@ == name@);
                    assert forall|k2: Seq<u8>|
                        first_match(self.pairs@, k2, 0) == if k2 == name@ {
                            Some(v)
                        } else {
                            first_match(s, k2, 0)
                        } by {
                        lemma_fm_update(s, self.pairs@, name@, v, i as int, k2, 0);
                    }
                    assert(self@ =~= old(self)@.insert(name@, v));
                }
                return;
            }
            i = i + 1;
        }
        let key = clone_bytes(name);
        self.pairs.push((key, v));
        proof {
            assert forall|k2: Seq<u8>|
                first_match(self.pairs@, k2, 0) == if k2 == name@ {
                    Some(v)
                } else {
                    first_match(s, k2, 0)
                } by {
                lemma_fm_push(s, self.pairs@, name@, v, k2, 0);
            }
            assert(self@ =~= old(self)@.insert(name@, v));
        }
    }

    /// Copies the table.
    pub fn duplicate(&self) -> (r: VarTable)
        ensures
            r@ == self@,
    {
        let mut pairs: Vec<(Vec<u8>, Hvalue)> = Vec::new();
        let mut i: usize = 0;
        while i < self.pairs.len()
            invariant
                i <= self.pairs@.len(),
                pairs@.len() == i,
                forall|j: int| 0 <= j < i ==> #[trigger] pairs@[j].0@ == self.pairs@[j].0@
                    && pairs@[j].1 == self.pairs@[j].1,
            decreases self.pairs@.len() - i,
        {
            let key = clone_bytes(&self.pairs[i].0);
            pairs.push((key, self.pairs[i].1));
            i = i + 1;
        }
        let r = VarTable { pairs };
        proof {
            assert forall|k2: Seq<u8>, j: int| 0 <= j <= r.pairs@.len() implies
                first_match(r.pairs@, k2, j) == first_match(self.pairs@, k2, j) by {
                lemma_fm_congruent(self.pairs@, r.pairs@, k2, j);
            }
            assert(r@ =~= self@);
        }
        r
    }
}

/// Tables whose entries agree pointwise on views agree on `first_match`.
proof fn lemma_fm_congruent(s: Seq<(Vec<u8>, Hvalue)>, t: Seq<(Vec<u8>, Hvalue)>, k: Seq<u8>, i: int)
    requires
        t.len() == s.len(),
        0 <= i <= s.len(),
        forall|j: int| 0 <= j < s.len() ==> #[trigger] t[j].0@ == s[j].0@ && t[j].1 == s[j].1,
    ensures
        first_match(t, k, i) == first_match(s, k, i),
    decreases s.len() - i,
{
    if i < s.len() {
        lemma_fm_congruent(s, t, k, i + 1);
    }
}

/// The `(node, vat, entity)` triple that addresses an entity.
#[derive(Clone, Copy, PartialEq, Eq, Structural, Debug)]
pub struct EntityAddress {
    pub node_id: u32,
    pub vat_id: u32,
    pub entity_id: u32,
}

impl EntityAddress {
    pub fn new(node_id: u32, vat_id: u32, entity_id: u32) -> (r: EntityAddress)
        ensures
            r.node_id == node_id && r.vat_id == vat_id && r.entity_id == entity_id,
    {
        EntityAddress { node_id, vat_id, entity_id }
    }
}

/// The payload of a message.
#[derive(PartialEq, Eq, Debug)]
pub enum MsgContents {
    /// An asynchronous call; `src_promise` is the promise in the sending vat
    /// that the eventual response resolves.
    Request {
        args: Vec<Hvalue>,
        function_id: u32,
        function_name: Vec<u8>,
        src_promise: Option<u8>,
    },
    /// The reply to a request; `dst_promise` names the promise to resolve.
    Response { result: Hvalue, dst_promise: Option<u8> },
    /// The one-shot startup message; no reply is expected.
    BigBang { args: Vec<Hvalue>, function_id: u32, function_name: Vec<u8> },
}

/// A directed packet between entities.
#[derive(PartialEq, Eq, Debug)]
pub struct Msg {
    pub src_address: EntityAddress,
    pub dst_address: EntityAddress,
    pub contents: MsgContents,
}

/// An actor-like object: its address, its private data, and the id of the
/// code it runs.
pub struct Entity {
    pub address: EntityAddress,
    pub data: VarTable,
    pub code_id: u64,
}

/// One function invocation: its locals and where `Ret` jumps back to.
/// A `None` return address marks the outermost frame of a message.
pub struct StackFrame {
    pub locals: VarTable,
    pub return_address: Option<usize>,
}

/// A pending message result. Created when an outbound request is sent;
/// resolved exactly once when the response arrives.
pub struct Promise {
    pub resolved: bool,
    /// Resumption instruction offsets, one per `Await` that suspended on it.
    pub on_resolve: Vec<usize>,
    /// Operand-stack and call-stack snapshots taken at the suspending `Await`.
    pub save_point: (Vec<Hvalue>, Vec<StackFrame>),
    /// Names bound to this promise, in binding order; the first one receives
    /// the resolved value on resumption.
    pub var_names: Vec<Vec<u8>>,
}

impl Promise {
    /// A fresh, unresolved promise.
    pub fn new() -> (r: Promise)
        ensures
            !r.resolved,
            r.on_resolve@.len() == 0,
            r.save_point.0@.len() == 0,
            r.save_point.1@.len() == 0,
            r.var_names@.len() == 0,
    {
        Promise {
            resolved: false,
            on_resolve: Vec::new(),
            save_point: (Vec::new(), Vec::new()),
            var_names: Vec::new(),
        }
    }
}

/// The data each declared field starts with.
pub open spec fn init_data_upto(decls: Seq<Vec<u8>>, i: int) -> Map<Seq<u8>, Hvalue>
    decreases i,
{
    if i <= 0 {
        Map::empty()
    } else {
        init_data_upto(decls, i - 1).insert(decls[i - 1]@, Hvalue::HNone)
    }
}

/// A single-threaded cooperative scheduler owning entities, stacks, a
/// promise table and its message queues.
pub struct Vat {
    pub inbox: Vec<Msg>,
    pub outbox: Vec<Msg>,
    /// Entities, indexed by their entity id.
    pub entities: Vec<Entity>,
    pub vat_id: u32,
    pub last_entity_id: u32,
    pub op_stack: Vec<Hvalue>,
    pub call_stack: Vec<StackFrame>,
    /// Promises, indexed by their promise id.
    pub promise_stack: Vec<Promise>,
}

impl Vat {
    /// Entity ids are dense: the next id is the entity count, and each entity
    /// is stored at its own id.
    pub open spec fn wf(&self) -> bool {
        &&& self.last_entity_id == self.entities@.len()
        &&& forall|i: int| 0 <= i < self.entities@.len()
            ==> (#[trigger] self.entities@[i].address.entity_id) == i
                && self.entities@[i].address.vat_id == self.vat_id
    }

    /// An empty vat.
    pub fn new() -> (r: Vat)
        ensures
            r.wf(),
            r.inbox@.len() == 0,
            r.outbox@.len() == 0,
            r.entities@.len() == 0,
            r.vat_id == 0,
            r.op_stack@.len() == 0,
            r.call_stack@.len() == 0,
            r.promise_stack@.len() == 0,
    {
        Vat {
            inbox: Vec::new(),
            outbox: Vec::new(),
            entities: Vec::new(),
            vat_id: 0,
            last_entity_id: 0,
            op_stack: Vec::new(),
            call_stack: Vec::new(),
            promise_stack: Vec::new(),
        }
    }

    /// Creates an entity from a definition: it receives the next entity id,
    /// and each declared data field starts as `HNone`. Returns the new id.
    pub fn create_entity(&mut self, def: &EntityDef) -> (r: u32)
        requires
            old(self).wf(),
            old(self).entities@.len() < u32::MAX,
        ensures
            final(self).wf(),
            r == old(self).last_entity_id,
            final(self).entities@.len() == old(self).entities@.len() + 1,
            final(self).entities@.subrange(0, old(self).entities@.len() as int)
                == old(self).entities@,
            final(self).entities@.last().address == (EntityAddress {
                node_id: 0,
                vat_id: old(self).vat_id,
                entity_id: old(self).last_entity_id,
            }),
            final(self).entities@.last().data@
                == init_data_upto(def.data_declarations@, def.data_declarations@.len() as int),
            final(self).entities@.last().code_id == 0,
            final(self).last_entity_id == old(self).last_entity_id + 1,
            final(self).inbox == old(self).inbox,
            final(self).outbox == old(self).outbox,
            final(self).vat_id == old(self).vat_id,
            final(self).op_stack == old(self).op_stack,
            final(self).call_stack == old(self).call_stack,
            final(self).promise_stack == old(self).promise_stack,
    {
        let entity_id = self.last_entity_id;
        let mut data = VarTable::new();
        let mut i: usize = 0;
        while i < def.data_declarations.len()
            invariant
                i <= def.data_declarations@.len(),
                data@ == init_data_upto(def.data_declarations@, i as int),
            decreases def.data_declarations@.len() - i,
        {
            data.set(&def.data_declarations[i], Hvalue::HNone);
            i = i + 1;
        }
        let entity = Entity {
            address: EntityAddress { node_id: 0, vat_id: self.vat_id, entity_id },
            data,
            code_id: 0,
        };
        self.entities.push(entity);
        self.last_entity_id = self.last_entity_id + 1;
        proof {
            assert(final(self).entities@.subrange(0, old(self).entities@.len() as int)
                =~= old(self).entities@);
        }
        entity_id
    }

    /// Reads a local from the topmost call frame.
    pub fn load_local(&self, name: &Vec<u8>) -> (r: Result<Hvalue, VmError>)
        ensures
            match r {
                Ok(v) => self.call_stack@.len() > 0
                    && self.call_stack@.last().locals@.contains_key(name@)
                    && v == self.call_stack@.last().locals@[name@],
                Err(e) => (self.call_stack@.len() == 0 && e == VmError::StackUnderflow)
                    || (self.call_stack@.len() > 0
                        && !self.call_stack@.last().locals@.contains_key(name@)
                        && e == VmError::UnboundName),
            },
    {
        if self.call_stack.len() == 0 {
            return Err(VmError::StackUnderflow);
        }
        let frame = &self.call_stack[self.call_stack.len() - 1];
        match frame.locals.get(name) {
            Some(v) => Ok(v),
            None => Err(VmError::UnboundName),
        }
    }

    /// Binds a local in the topmost call frame.
    pub fn store_local(&mut self, name: &Vec<u8>, v: Hvalue) -> (r: Result<(), VmError>)
        ensures
            match r {
                Ok(()) => {
                    let n = old(self).call_stack@.len();
                    &&& n > 0
                    &&& final(self).call_stack@.len() == n
                    &&& final(self).call_stack@.last().locals@
                        == old(self).call_stack@.last().locals@.insert(name@, v)
                    &&& final(self).call_stack@.last().return_address
                        == old(self).call_stack@.last().return_address
                    &&& final(self).call_stack@.subrange(0, n - 1)
                        == old(self).call_stack@.subrange(0, n - 1)
                    &&& final(self).inbox == old(self).inbox
                    &&& final(self).outbox == old(self).outbox
                    &&& final(self).entities == old(self).entities
                    &&& final(self).vat_id == old(self).vat_id
                    &&& final(self).last_entity_id == old(self).last_entity_id
                    &&& final(self).op_stack == old(self).op_stack
                    &&& final(self).promise_stack == old(self).promise_stack
                },
                Err(e) => *final(self) == *old(self) && old(self).call_stack@.len() == 0
                    && e == VmError::StackUnderflow,
            },
    {
        let n = self.call_stack.len();
        if n == 0 {
            return Err(VmError::StackUnderflow);
        }
        let frame = vec_index_mut(&mut self.call_stack, n - 1);
        frame.locals.set(name, v);
        proof {
            assert(self.call_stack@.subrange(0, n - 1)
                =~= old(self).call_stack@.subrange(0, n - 1));
        }
        Ok(())
    }
}

/// A node hosting a set of vats; transport between nodes lives outside the
/// core.
pub struct PleromaNode {}

} // verus!
