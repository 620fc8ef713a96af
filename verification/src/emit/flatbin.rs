//! The emitter: walks a program tree and fills a flat byte image, resolving
//! labels, constants and forward references on the way.

use crate::arch::{FieldType, InstructionDefinition, RiscVSpec};
use crate::argv::{argv_as_slice, argv_items, argv_new, argv_push, ArgValues};
use crate::emit::model::{
    align_up, bind_one, bound_values, emit_image, first_mismatch, is_equ, is_local_label, is_org,
    max_image_len, DeferredView, EmitErrorView, EmitModel, Step,
};
use crate::node::{node_debug_text, placed_node_debug_text, Node, NodeView};
use vstd::hash_map::StringHashMap;
use vstd::prelude::*;
use vstd::string::{StrSliceExecFns, StringExecFns};

verus! {

/// The spare capacity, in bytes, that a jump of the cursor beyond the end of
/// the image asks for.
pub const HEADROOM: usize = 1024;

/// Why an emission was abandoned.
#[derive(Clone, Debug, PartialEq, Eq)]
pub enum EmitError {
    /// A node stands where only labels, instructions and directives may, or
    /// an instruction still waited for a symbol at the end of its sequence.
    UnexpectedNodeType(String),
    /// The architecture has no instruction of this name.
    InvalidInstruction(String),
    /// The instruction or directive was given the wrong number of arguments.
    InvalidArgumentCount(String),
    /// The argument at the given index has the wrong kind, or is an address
    /// beyond the largest image.
    InvalidArgumentType(String, usize),
    /// The instruction is too long, cannot be placed, or a value does not fit
    /// its field.
    InvalidEncoding(String),
    /// The label is already defined.
    DuplicateLabel(String),
    /// The constant is already defined.
    DuplicateConstant(String),
}

impl View for EmitError {
    type V = EmitErrorView;

    open spec fn view(&self) -> EmitErrorView {
        match self {
            EmitError::UnexpectedNodeType(text) => EmitErrorView::UnexpectedNodeType(text@),
            EmitError::InvalidInstruction(name) => EmitErrorView::InvalidInstruction(name@),
            EmitError::InvalidArgumentCount(name) => EmitErrorView::InvalidArgumentCount(name@),
            EmitError::InvalidArgumentType(name, index) => EmitErrorView::InvalidArgumentType(
                name@,
                *index,
            ),
            EmitError::InvalidEncoding(name) => EmitErrorView::InvalidEncoding(name@),
            EmitError::DuplicateLabel(name) => EmitErrorView::DuplicateLabel(name@),
            EmitError::DuplicateConstant(name) => EmitErrorView::DuplicateConstant(name@),
        }
    }
}

/// An instruction that waits for a symbol.
#[derive(Clone, Debug, PartialEq, Eq)]
pub struct Deferred {
    /// Where the bytes of the instruction belong.
    pub position: usize,
    /// The mnemonic.
    pub name: String,
    /// The arguments, as they were written.
    pub args: Vec<Node>,
}

impl View for Deferred {
    type V = DeferredView;

    open spec fn view(&self) -> DeferredView {
        DeferredView { position: self.position, name: self.name@, args: Node::values(self.args@) }
    }
}

/// The state of an emission.
pub struct BinaryEmitState {
    /// The bytes emitted so far.
    pub out_buf: Vec<u8>,
    /// The offset at which the next byte is written.
    pub out_pos: usize,
    /// The instructions that wait for a symbol, oldest first.
    pub deferred: Vec<Deferred>,
    /// The global labels.
    pub label_set: StringHashMap<u64>,
    /// The local labels of the current scope.
    pub local_label_set: StringHashMap<u64>,
    /// The constants that directives defined.
    pub const_set: StringHashMap<u64>,
}

impl View for BinaryEmitState {
    type V = EmitModel;

    open spec fn view(&self) -> EmitModel {
        EmitModel {
            image: self.out_buf@,
            cursor: self.out_pos,
            pending: self.deferred@.map_values(|d: Deferred| d@),
            globals: self.label_set@,
            locals: self.local_label_set@,
            constants: self.const_set@,
        }
    }
}

impl BinaryEmitState {
    /// The state before anything is emitted.
    pub fn new() -> (state: BinaryEmitState)
        ensures
            state@ == EmitModel::empty(),
    {
        BinaryEmitState {
            out_buf: Vec::new(),
            out_pos: 0,
            deferred: Vec::new(),
            label_set: StringHashMap::new(),
            local_label_set: StringHashMap::new(),
            const_set: StringHashMap::new(),
        }
    }

    /// Makes room for `byte_count` bytes at the cursor and moves the cursor
    /// behind them; the image grows by zero bytes where it was shorter.
    /// Returns the offset of the first of the bytes, or `None`, with nothing
    /// changed, where the image would grow beyond the largest length.
    pub fn accomodate_bytes(&mut self, byte_count: usize) -> (start: Option<usize>)
        ensures
            match start {
                Some(first) => first == old(self).out_pos && old(self).out_pos + byte_count
                    <= max_image_len() && final(self)@ == old(self)@.reserve(byte_count as int),
                None => old(self).out_pos + byte_count > max_image_len() && *final(self) == *old(
                    self,
                ),
            },
    {
        let start_pos = self.out_pos;
        let end_pos = match start_pos.checked_add(byte_count) {
            Some(end) => end,
            None => { return None; },
        };
        if end_pos > isize::MAX as usize {
            return None;
        }
        if self.out_buf.len() < end_pos {
            self.out_buf.resize(end_pos, 0);
        }
        self.out_pos = end_pos;
        Some(start_pos)
    }

    /// The value of the symbol `key`: the first hit among the global labels,
    /// the local labels, the defined constants and the constants of `arch`.
    pub fn find_const(&self, key: &str, arch: &RiscVSpec) -> (value: Option<u64>)
        ensures
            value == self@.resolve(arch@, key@),
    {
        if let Some(v) = self.label_set.get(key) {
            return Some(*v);
        }
        if let Some(v) = self.local_label_set.get(key) {
            return Some(*v);
        }
        if let Some(v) = self.const_set.get(key) {
            return Some(*v);
        }
        arch.get_const(key)
    }
}

impl BinaryEmitState {
    /// `node` with every identifier that resolves now replaced by its
    /// integer, and whether no identifier is left. `pc` is the offset of the
    /// instruction that the node belongs to; no kind of node reads it, so the
    /// result is the same at every offset.
    pub fn simplify(&self, node: &Node, arch: &RiscVSpec, pc: u64) -> (r: (Node, bool))
        ensures
            r.0@ == node@.simplify(self@.scope(arch@)).0,
            r.1 == node@.simplify(self@.scope(arch@)).1,
        decreases node,
    {
        match node {
            Node::Identifier(name) => match self.find_const(name.as_str(), arch) {
                Some(value) => (Node::Integer(value), true),
                None => (Node::Identifier(name.clone()), false),
            },
            Node::Argument(inner) => {
                let (reduced, done) = self.simplify(inner, arch, pc);
                (Node::Argument(Box::new(reduced)), done)
            },
            Node::Instruction(name, args) => {
                let (reduced, done) = self.simplify_all(args, arch, pc);
                (Node::Instruction(name.clone(), reduced), done)
            },
            Node::Root(nodes) => {
                let (reduced, done) = self.simplify_all(nodes, arch, pc);
                (Node::Root(reduced), done)
            },
            Node::Label(name) => (Node::Label(name.clone()), true),
            Node::Integer(value) => (Node::Integer(*value), true),
            Node::Register(index) => (Node::Register(*index), true),
        }
    }

    /// Each of `nodes` simplified at the offset `pc`, and whether no
    /// identifier is left in any.
    pub fn simplify_all(&self, nodes: &Vec<Node>, arch: &RiscVSpec, pc: u64) -> (r: (Vec<Node>, bool))
        ensures
            Node::values(r.0@) == NodeView::simplify_all(Node::values(nodes@), self@.scope(arch@)),
            r.1 == NodeView::all_resolved(Node::values(nodes@), self@.scope(arch@)),
        decreases nodes,
    {
        let ghost env = self@.scope(arch@);
        let ghost values = Node::values(nodes@);
        let mut reduced: Vec<Node> = Vec::new();
        let mut done = true;
        let mut i: usize = 0;
        while i < nodes.len()
            invariant
                i <= nodes.len(),
                env == self@.scope(arch@),
                values == Node::values(nodes@),
                reduced@.len() == i,
                forall|j: int| 0 <= j < i ==> (#[trigger] reduced@[j])@ == values[j].simplify(env).0,
                done == (forall|j: int| 0 <= j < i ==> (#[trigger] values[j]).simplify(env).1),
            decreases nodes.len() - i,
        {
            let (node, ok) = self.simplify(&nodes[i], arch, pc);
            assert(values[i as int] == nodes@[i as int]@);
            reduced.push(node);
            if !ok {
                done = false;
            }
            i += 1;
        }
        assert(Node::values(reduced@) =~= NodeView::simplify_all(values, env));
        (reduced, done)
    }
}

/// Whether the outcome `r` of a step that left the state `after` is the
/// outcome `expected`.
pub open spec fn step_is(r: Result<(), EmitError>, after: EmitModel, expected: Step) -> bool {
    match r {
        Ok(()) => expected matches Ok(state) && state =~= after,
        Err(e) => expected matches Err(error) && error == e@,
    }
}

/// Whether a label of this name is local to the scope of a global label.
pub fn label_is_local(name: &String) -> (r: bool)
    ensures
        r == is_local_label(name@),
{
    let text = name.as_str();
    if text.is_empty() {
        false
    } else {
        text.get_char(0) == '.'
    }
}

/// Whether `name` spells the directive that moves the cursor.
pub fn names_org(name: &String) -> (r: bool)
    ensures
        r == is_org(name@),
{
    *name == String::from_str(".org") || *name == String::from_str(".ORG")
}

/// Whether `name` spells a directive that defines a constant.
pub fn names_equ(name: &String) -> (r: bool)
    ensures
        r == is_equ(name@),
{
    *name == String::from_str(".equ") || *name == String::from_str(".EQU") || *name
        == String::from_str(".define") || *name == String::from_str(".DEFINE")
}

/// The values that the reduced arguments `args` give to the fields of `def`,
/// in declared order, or the index of the first argument of the wrong kind.
pub(crate) fn bind_arguments(def: &InstructionDefinition, args: &Vec<Node>) -> (r: Result<
    ArgValues,
    usize,
>)
    requires
        args@.len() == def@.args.len(),
    ensures
        match r {
            Ok(values) => first_mismatch(def@, Node::values(args@), 0) is None && argv_items(values)
                == bound_values(def@, Node::values(args@)),
            Err(index) => first_mismatch(def@, Node::values(args@), 0) == Some(index),
        },
{
    let fields = def.get_format().fields();
    let roles = def.args();
    let ghost nodes = Node::values(args@);
    let mut argv = argv_new();
    let mut i: usize = 0;
    while i < args.len()
        invariant
            i <= args.len(),
            args@.len() == def@.args.len(),
            def@.wf(),
            fields@ == def@.format.fields,
            roles@ == def@.args,
            nodes == Node::values(args@),
            first_mismatch(def@, nodes, i as nat) == first_mismatch(def@, nodes, 0),
            argv_items(argv).len() == i,
            forall|j: int|
                0 <= j < i ==> bind_one(def@.field_of(j).vtype, nodes[j]) == Some(
                    #[trigger] argv_items(argv)[j],
                ),
        decreases args.len() - i,
    {
        let arg = &args[i];
        assert(nodes[i as int] == arg@);
        let bound = match fields[roles[i]].vtype {
            FieldType::Value => arg.integer_argument(),
            FieldType::Register => match arg.register_argument() {
                Some(index) => Some(index as u64),
                None => None,
            },
        };
        match bound {
            Some(value) => {
                argv_push(&mut argv, value);
            },
            None => {
                return Err(i);
            },
        }
        i += 1;
    }
    assert(argv_items(argv) =~= bound_values(def@, nodes));
    Ok(argv)
}

/// The `.org` directive `name` with the arguments `args`: moves the cursor to
/// the address that its one argument reduces to.
pub fn emit_org(arch: &RiscVSpec, state: &mut BinaryEmitState, name: &String, args: &Vec<Node>) -> (r:
    Result<(), EmitError>)
    ensures
        step_is(r, final(state)@, old(state)@.emit_org(arch@, name@, Node::values(args@))),
{
    if args.len() != 1 {
        return Err(EmitError::InvalidArgumentCount(name.clone()));
    }
    let (reduced, _) = state.simplify(&args[0], arch, state.out_pos as u64);
    assert(Node::values(args@)[0] == args@[0]@);
    match reduced.integer_argument() {
        Some(address) => {
            if address > isize::MAX as u64 {
                return Err(EmitError::InvalidArgumentType(name.clone(), 0));
            }
            let new_out_pos = address as usize;
            let len = state.out_buf.len();
            if new_out_pos > len {
                if isize::MAX as usize - new_out_pos >= HEADROOM {
                    state.out_buf.reserve(new_out_pos - len + HEADROOM);
                }
                state.out_buf.resize(new_out_pos, 0);
            }
            state.out_pos = new_out_pos;
            Ok(())
        },
        None => Err(EmitError::InvalidArgumentType(name.clone(), 0)),
    }
}

/// The `.equ` or `.define` directive `name` with the arguments `args`: gives
/// the identifier of the first argument the integer of the second.
pub fn emit_equ(arch: &RiscVSpec, state: &mut BinaryEmitState, name: &String, args: &Vec<Node>) -> (r:
    Result<(), EmitError>)
    ensures
        step_is(r, final(state)@, old(state)@.emit_equ(arch@, name@, Node::values(args@))),
{
    if args.len() != 2 {
        return Err(EmitError::InvalidArgumentCount(name.clone()));
    }
    assert(Node::values(args@)[0] == args@[0]@);
    assert(Node::values(args@)[1] == args@[1]@);
    let defined = match args[0].identifier_argument() {
        Some(defined) => defined,
        None => {
            return Err(EmitError::InvalidArgumentType(name.clone(), 0));
        },
    };
    let (reduced, _) = state.simplify(&args[1], arch, state.out_pos as u64);
    match reduced.integer_argument() {
        None => Err(EmitError::InvalidArgumentType(name.clone(), 1)),
        Some(value) => {
            if state.const_set.contains_key(defined.as_str()) {
                Err(EmitError::DuplicateConstant(defined.clone()))
            } else {
                state.const_set.insert(defined.clone(), value);
                Ok(())
            }
        },
    }
}

/// The first multiple of `align` that is not below `pos`, if an instruction
/// of `length` bytes that starts there ends inside the largest image.
pub fn aligned_start(pos: usize, align: u64, length: usize) -> (r: Option<usize>)
    requires
        align > 0,
    ensures
        r == (if align_up(pos as int, align as int) + length <= max_image_len() {
            Some(align_up(pos as int, align as int) as usize)
        } else {
            None
        }),
{
    let rest = pos as u64 % align;
    let gap = if rest == 0 {
        0
    } else {
        align - rest
    };
    let start = match (pos as u64).checked_add(gap) {
        Some(start) => start,
        None => {
            return None;
        },
    };
    match start.checked_add(length as u64) {
        Some(end) => if end <= isize::MAX as u64 {
            Some(start as usize)
        } else {
            None
        },
        None => None,
    }
}

/// The machine instruction `name` with the arguments `args`, at the cursor:
/// checks it against its definition, aligns the cursor, and encodes it, or,
/// where a symbol is still unknown, queues it as it was written, behind a
/// placeholder. The arguments are reduced with the aligned start of the
/// instruction as its offset.
pub fn emit_instruction(
    arch: &RiscVSpec,
    state: &mut BinaryEmitState,
    name: &String,
    args: &Vec<Node>,
) -> (r: Result<(), EmitError>)
    ensures
        step_is(r, final(state)@, old(state)@.emit_instruction(arch@, name@, Node::values(args@))),
{
    let def = match arch.get_instruction_by_name(name.as_str()) {
        Some(def) => def,
        None => {
            return Err(EmitError::InvalidInstruction(name.clone()));
        },
    };
    if args.len() != def.args().len() {
        return Err(EmitError::InvalidArgumentCount(name.clone()));
    }
    let ilen_bytes = (def.get_format().ilen() + 7) / 8;
    if ilen_bytes as u64 > arch.max_ilen_bytes() {
        return Err(EmitError::InvalidEncoding(name.clone()));
    }
    let ialign_bytes = arch.ialign_bytes();
    if ialign_bytes == 0 {
        return Err(EmitError::InvalidEncoding(name.clone()));
    }
    let start = match aligned_start(state.out_pos, ialign_bytes, ilen_bytes) {
        Some(start) => start,
        None => {
            return Err(EmitError::InvalidEncoding(name.clone()));
        },
    };
    let (reduced, done) = state.simplify_all(args, arch, start as u64);
    // The gap up to `start` and the bytes of the instruction are reserved in
    // one step; `aligned_start` has shown that they fit.
    state.out_pos = start;
    state.accomodate_bytes(ilen_bytes);
    if !done {
        state.deferred.push(
            Deferred { position: start, name: name.clone(), args: Node::clone_all(args) },
        );
        assert(state@.pending =~= old(state)@.pending.push(
            DeferredView { position: start, name: name@, args: Node::values(args@) },
        ));
        return Ok(());
    }
    let argv = match bind_arguments(def, &reduced) {
        Ok(argv) => argv,
        Err(index) => {
            return Err(EmitError::InvalidArgumentType(name.clone(), index));
        },
    };
    match def.encode_into(&mut state.out_buf, start, argv_as_slice(&argv)) {
        Ok(()) => Ok(()),
        Err(_) => Err(EmitError::InvalidEncoding(name.clone())),
    }
}

/// Retries every pending instruction against the symbols known now, with its
/// saved position as its offset. One that reduces fully is encoded at that
/// position and leaves the queue; the others stay queued as they were
/// written, in their order. The cursor is left where it was.
pub fn emit_deferred(arch: &RiscVSpec, state: &mut BinaryEmitState) -> (r: Result<(), EmitError>)
    ensures
        step_is(r, final(state)@, old(state)@.flush(arch@)),
{
    let ghost all = state@.pending;
    let ghost goal = state@.flush(arch@);
    // The queue is taken out of the state and built anew from the entries
    // that still wait.
    let mut entries: Vec<Deferred> = Vec::new();
    core::mem::swap(&mut state.deferred, &mut entries);
    assert(state@ =~= (EmitModel { pending: Seq::empty(), ..old(state)@ }));
    assert(all.skip(0) =~= all);
    let mut i: usize = 0;
    while i < entries.len()
        invariant
            i <= entries.len(),
            entries@.len() == all.len(),
            forall|j: int| i <= j < entries@.len() ==> (#[trigger] entries@[j])@ == all[j],
            state@.flush_entries(arch@, all.skip(i as int)) == goal,
            goal == old(state)@.flush(arch@),
        decreases entries.len() - i,
    {
        let ghost before = state@;
        assert(all.skip(i as int)[0] == all[i as int]);
        assert(all.skip(i as int).drop_first() =~= all.skip(i + 1));
        let (reduced, done) = state.simplify_all(&entries[i].args, arch, entries[i].position as u64);
        if done {
            let saved = state.out_pos;
            state.out_pos = entries[i].position;
            assert(state@ =~= before.at(entries@[i as int].position));
            match emit_instruction(arch, state, &entries[i].name, &reduced) {
                Ok(()) => {},
                Err(e) => {
                    return Err(e);
                },
            }
            let ghost next = state@;
            state.out_pos = saved;
            assert(state@ =~= next.at(before.cursor));
        } else {
            // Moves the entry out of `entries`, leaving an empty one behind.
            let mut entry = Deferred { position: 0, name: String::new(), args: Vec::new() };
            entries.set_and_swap(i, &mut entry);
            state.deferred.push(entry);
            assert(state@ =~= (EmitModel { pending: before.pending.push(all[i as int]), ..before }));
        }
        i += 1;
    }
    Ok(())
}

/// The label `name`. A local label is recorded at the cursor. A global label
/// first retries the pending instructions and ends the scope of the local
/// labels, and is then recorded at the cursor.
pub fn emit_label(arch: &RiscVSpec, state: &mut BinaryEmitState, name: &String) -> (r: Result<
    (),
    EmitError,
>)
    ensures
        step_is(r, final(state)@, old(state)@.emit_label(arch@, name@)),
{
    if label_is_local(name) {
        if state.local_label_set.contains_key(name.as_str()) {
            return Err(EmitError::DuplicateLabel(name.clone()));
        }
        state.local_label_set.insert(name.clone(), state.out_pos as u64);
        Ok(())
    } else {
        match emit_deferred(arch, state) {
            Ok(()) => {},
            Err(e) => {
                return Err(e);
            },
        }
        state.local_label_set.clear();
        if state.label_set.contains_key(name.as_str()) {
            return Err(EmitError::DuplicateLabel(name.clone()));
        }
        state.label_set.insert(name.clone(), state.out_pos as u64);
        Ok(())
    }
}

/// The end of a sequence of nodes: retries the pending instructions a last
/// time and fails if one of them still waits for a symbol.
pub fn emit_finish(arch: &RiscVSpec, state: &mut BinaryEmitState) -> (r: Result<(), EmitError>)
    ensures
        step_is(r, final(state)@, old(state)@.finish(arch@)),
{
    match emit_deferred(arch, state) {
        Ok(()) => {},
        Err(e) => {
            return Err(e);
        },
    }
    if state.deferred.len() > 0 {
        let entry = state.deferred.remove(0);
        let position = entry.position;
        let node = Node::Instruction(entry.name, entry.args);
        return Err(EmitError::UnexpectedNodeType(placed_node_debug_text(position, &node)));
    }
    Ok(())
}

/// Emits `node` into `state`: a root node by node and then finished, a label,
/// a directive or a machine instruction. Any other node is refused.
pub fn emit_binary_recurse(arch: &RiscVSpec, state: &mut BinaryEmitState, node: &Node) -> (r: Result<
    (),
    EmitError,
>)
    ensures
        step_is(r, final(state)@, old(state)@.emit_node(arch@, node@)),
    decreases node,
{
    match node {
        Node::Root(nodes) => {
            let ghost values = Node::values(nodes@);
            let ghost goal = state@.emit_from(arch@, values, 0);
            let mut i: usize = 0;
            while i < nodes.len()
                invariant
                    i <= nodes.len(),
                    values == Node::values(nodes@),
                    state@.emit_from(arch@, values, i as nat) == goal,
                    goal == old(state)@.emit_from(arch@, values, 0),
                    *node == Node::Root(*nodes),
                decreases nodes.len() - i,
            {
                assert(values[i as int] == nodes@[i as int]@);
                match emit_binary_recurse(arch, state, &nodes[i]) {
                    Ok(()) => {},
                    Err(e) => {
                        return Err(e);
                    },
                }
                i += 1;
            }
            emit_finish(arch, state)
        },
        Node::Label(name) => emit_label(arch, state, name),
        Node::Instruction(name, args) => {
            if names_org(name) {
                emit_org(arch, state, name, args)
            } else if names_equ(name) {
                emit_equ(arch, state, name, args)
            } else {
                emit_instruction(arch, state, name, args)
            }
        },
        _ => Err(EmitError::UnexpectedNodeType(node_debug_text(node))),
    }
}

/// Emits the program `ast` for the architecture `arch` and returns the flat
/// byte image, or the first error.
pub fn emit_flat_binary(arch: &RiscVSpec, ast: &Node) -> (r: Result<Vec<u8>, EmitError>)
    ensures
        match r {
            Ok(image) => emit_image(arch@, ast@) == Ok::<Seq<u8>, EmitErrorView>(image@),
            Err(e) => emit_image(arch@, ast@) == Err::<Seq<u8>, EmitErrorView>(e@),
        },
{
    let mut state = BinaryEmitState::new();
    match emit_binary_recurse(arch, &mut state, ast) {
        Ok(()) => Ok(state.out_buf),
        Err(e) => Err(e),
    }
}

} // verus!
