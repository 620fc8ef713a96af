//! The emission state as a mathematical value, and what each step of the
//! emission does to it.

use crate::arch::{write_at, ArchView, FieldType, InstructionView};
use crate::node::{debug_text, placed_debug_text, NodeView};
use vstd::prelude::*;

verus! {

/// The mathematical value of an emission error.
pub ghost enum EmitErrorView {
    UnexpectedNodeType(Seq<char>),
    InvalidInstruction(Seq<char>),
    InvalidArgumentCount(Seq<char>),
    InvalidArgumentType(Seq<char>, usize),
    InvalidEncoding(Seq<char>),
    DuplicateLabel(Seq<char>),
    DuplicateConstant(Seq<char>),
}

/// An instruction that waits for a symbol: where its bytes belong, its
/// mnemonic, and its arguments as they were written.
pub ghost struct DeferredView {
    pub position: usize,
    pub name: Seq<char>,
    pub args: Seq<NodeView>,
}

impl DeferredView {
    /// The instruction node that this entry stands for.
    pub open spec fn node(self) -> NodeView {
        NodeView::Instruction(self.name, self.args)
    }
}

/// The emission state.
#[verifier::ext_equal]
pub ghost struct EmitModel {
    /// The bytes emitted so far.
    pub image: Seq<u8>,
    /// The offset at which the next byte is written.
    pub cursor: usize,
    /// The instructions that wait for a symbol, oldest first.
    pub pending: Seq<DeferredView>,
    /// The global labels.
    pub globals: Map<Seq<char>, u64>,
    /// The local labels of the current scope.
    pub locals: Map<Seq<char>, u64>,
    /// The constants that directives defined.
    pub constants: Map<Seq<char>, u64>,
}

/// The result of an emission step.
pub type Step = Result<EmitModel, EmitErrorView>;

/// The largest length that an image can have.
pub open spec fn max_image_len() -> int {
    isize::MAX as int
}

/// Whether a label of this name is local to the scope of a global label.
pub open spec fn is_local_label(name: Seq<char>) -> bool {
    name.len() > 0 && name[0] == '.'
}

/// Whether `name` spells the directive that moves the cursor.
pub open spec fn is_org(name: Seq<char>) -> bool {
    name == ".org"@ || name == ".ORG"@
}

/// Whether `name` spells a directive that defines a constant.
pub open spec fn is_equ(name: Seq<char>) -> bool {
    name == ".equ"@ || name == ".EQU"@ || name == ".define"@ || name == ".DEFINE"@
}

/// `n` zero bytes.
pub open spec fn zeros(n: nat) -> Seq<u8> {
    Seq::new(n, |i: int| 0u8)
}

/// `image`, padded with zero bytes where it is shorter than `len`.
pub open spec fn extend_to(image: Seq<u8>, len: int) -> Seq<u8> {
    if image.len() < len {
        image + zeros((len - image.len()) as nat)
    } else {
        image
    }
}

/// The first multiple of `align` that is not below `pos`.
pub open spec fn align_up(pos: int, align: int) -> int {
    if pos % align == 0 {
        pos
    } else {
        pos + (align - pos % align)
    }
}

/// The test that holds of the entries that still wait for a symbol when the
/// names in `env` are known.
pub open spec fn still_waiting(env: Map<Seq<char>, u64>) -> spec_fn(DeferredView) -> bool {
    |entry: DeferredView| !NodeView::all_resolved(entry.args, env)
}

/// The value that an argument gives to a field of type `vtype`, if the
/// argument has the kind that the field asks for.
pub open spec fn bind_one(vtype: FieldType, arg: NodeView) -> Option<u64> {
    match vtype {
        FieldType::Value => arg.integer_argument(),
        FieldType::Register => match arg.register_argument() {
            Some(r) => Some(r as u64),
            None => None,
        },
    }
}

/// The first index from `from` on at which an argument does not have the kind
/// that its field asks for.
pub open spec fn first_mismatch(def: InstructionView, args: Seq<NodeView>, from: nat) -> Option<
    usize,
>
    decreases args.len() - from,
{
    if from >= args.len() {
        None
    } else if bind_one(def.field_of(from as int).vtype, args[from as int]) is None {
        Some(from as usize)
    } else {
        first_mismatch(def, args, from + 1)
    }
}

/// The values that `args` give to the fields of `def`, in declared order.
pub open spec fn bound_values(def: InstructionView, args: Seq<NodeView>) -> Seq<u64> {
    Seq::new(args.len(), |i: int| bind_one(def.field_of(i).vtype, args[i]).unwrap())
}

impl EmitModel {
    /// The state before anything is emitted.
    pub open spec fn empty() -> EmitModel {
        EmitModel {
            image: Seq::empty(),
            cursor: 0,
            pending: Seq::empty(),
            globals: Map::empty(),
            locals: Map::empty(),
            constants: Map::empty(),
        }
    }

    /// Whether `entry` can be retried in place: its instruction is known and
    /// has as many arguments as the entry, and its bytes start at a multiple
    /// of the instruction alignment and lie inside the image.
    pub open spec fn holds_place(self, arch: ArchView, entry: DeferredView) -> bool {
        &&& arch.instructions.contains_key(entry.name)
        &&& entry.args.len() == arch.instructions[entry.name].args.len()
        &&& arch.instructions[entry.name].format.ilen_bytes() <= arch.max_ilen_bytes()
        &&& arch.ialign_bytes() > 0
        &&& entry.position as int % arch.ialign_bytes() as int == 0
        &&& entry.position + arch.instructions[entry.name].format.ilen_bytes() <= self.image.len()
    }

    /// Whether the byte at offset `k` belongs to the placeholder of `entry`.
    pub open spec fn covers(arch: ArchView, entry: DeferredView, k: int) -> bool {
        entry.position <= k < entry.position + arch.instructions[entry.name].format.ilen_bytes()
    }

    /// What holds of every state that an emission reaches: the cursor lies
    /// inside an image of admissible length, and every pending instruction
    /// holds its place.
    pub open spec fn consistent(self, arch: ArchView) -> bool {
        &&& self.cursor <= self.image.len() <= max_image_len()
        &&& forall|i: int|
            0 <= i < self.pending.len() ==> self.holds_place(arch, #[trigger] self.pending[i])
    }

    /// The value of `name`: the first hit among the global labels, the local
    /// labels, the defined constants and the constants of the architecture.
    pub open spec fn resolve(self, arch: ArchView, name: Seq<char>) -> Option<u64> {
        if self.globals.contains_key(name) {
            Some(self.globals[name])
        } else if self.locals.contains_key(name) {
            Some(self.locals[name])
        } else if self.constants.contains_key(name) {
            Some(self.constants[name])
        } else if arch.consts.contains_key(name) {
            Some(arch.consts[name])
        } else {
            None
        }
    }

    /// All names that resolve, each with its value.
    pub open spec fn scope(self, arch: ArchView) -> Map<Seq<char>, u64> {
        Map::new(
            |name: Seq<char>| self.resolve(arch, name) is Some,
            |name: Seq<char>| self.resolve(arch, name).unwrap(),
        )
    }

    /// The cursor moved forward by `count` bytes, the image padded with zero
    /// bytes up to the new cursor.
    pub open spec fn reserve(self, count: int) -> EmitModel {
        EmitModel {
            image: extend_to(self.image, self.cursor + count),
            cursor: (self.cursor + count) as usize,
            ..self
        }
    }

    /// The state with the cursor at `cursor`.
    pub open spec fn at(self, cursor: usize) -> EmitModel {
        EmitModel { cursor, ..self }
    }

    /// The `.org` directive: moves the cursor to the address that its one
    /// argument reduces to, padding the image with zero bytes up to it.
    pub open spec fn emit_org(self, arch: ArchView, name: Seq<char>, args: Seq<NodeView>) -> Step {
        if args.len() != 1 {
            Err(EmitErrorView::InvalidArgumentCount(name))
        } else {
            match args[0].simplify(self.scope(arch)).0.integer_argument() {
                Some(address) if address <= max_image_len() => Ok(
                    EmitModel {
                        image: extend_to(self.image, address as int),
                        cursor: address as usize,
                        ..self
                    },
                ),
                _ => Err(EmitErrorView::InvalidArgumentType(name, 0)),
            }
        }
    }

    /// The `.equ` and `.define` directives: give the bare identifier of the
    /// first argument the integer that the second reduces to.
    pub open spec fn emit_equ(self, arch: ArchView, name: Seq<char>, args: Seq<NodeView>) -> Step {
        if args.len() != 2 {
            Err(EmitErrorView::InvalidArgumentCount(name))
        } else {
            match args[0].identifier_argument() {
                None => Err(EmitErrorView::InvalidArgumentType(name, 0)),
                Some(defined) => match args[1].simplify(self.scope(arch)).0.integer_argument() {
                    None => Err(EmitErrorView::InvalidArgumentType(name, 1)),
                    Some(value) => if self.constants.contains_key(defined) {
                        Err(EmitErrorView::DuplicateConstant(defined))
                    } else {
                        Ok(EmitModel { constants: self.constants.insert(defined, value), ..self })
                    },
                },
            }
        }
    }

    /// A machine instruction at the cursor: checked against its definition,
    /// aligned, and then either encoded or, where a symbol is still unknown,
    /// queued as it was written, behind a placeholder of its length.
    pub open spec fn emit_instruction(
        self,
        arch: ArchView,
        name: Seq<char>,
        args: Seq<NodeView>,
    ) -> Step {
        if !arch.instructions.contains_key(name) {
            Err(EmitErrorView::InvalidInstruction(name))
        } else {
            let def = arch.instructions[name];
            let length = def.format.ilen_bytes() as int;
            let align = arch.ialign_bytes() as int;
            if args.len() != def.args.len() {
                Err(EmitErrorView::InvalidArgumentCount(name))
            } else if length > arch.max_ilen_bytes() || align == 0 || align_up(
                self.cursor as int,
                align,
            ) + length > max_image_len() {
                Err(EmitErrorView::InvalidEncoding(name))
            } else {
                let start = align_up(self.cursor as int, align) as usize;
                let reduced = NodeView::simplify_all(args, self.scope(arch));
                let reserved = self.at(start).reserve(length);
                if !NodeView::all_resolved(args, self.scope(arch)) {
                    Ok(
                        EmitModel {
                            pending: self.pending.push(DeferredView { position: start, name, args }),
                            ..reserved
                        },
                    )
                } else {
                    match first_mismatch(def, reduced, 0) {
                        Some(index) => Err(EmitErrorView::InvalidArgumentType(name, index)),
                        None => match def.encode(bound_values(def, reduced)) {
                            Err(_) => Err(EmitErrorView::InvalidEncoding(name)),
                            Ok(bytes) => Ok(
                                EmitModel {
                                    image: write_at(reserved.image, start as int, bytes),
                                    ..reserved
                                },
                            ),
                        },
                    }
                }
            }
        }
    }

    /// Retries the entries `entries` in order: one that now reduces fully is
    /// encoded at its saved position, the cursor staying where it is; one that
    /// does not is queued again.
    pub open spec fn flush_entries(self, arch: ArchView, entries: Seq<DeferredView>) -> Step
        decreases entries.len(),
    {
        if entries.len() == 0 {
            Ok(self)
        } else {
            let entry = entries[0];
            let rest = entries.drop_first();
            if !NodeView::all_resolved(entry.args, self.scope(arch)) {
                EmitModel { pending: self.pending.push(entry), ..self }.flush_entries(arch, rest)
            } else {
                let reduced = NodeView::simplify_all(entry.args, self.scope(arch));
                match self.at(entry.position).emit_instruction(arch, entry.name, reduced) {
                    Err(e) => Err(e),
                    Ok(next) => next.at(self.cursor).flush_entries(arch, rest),
                }
            }
        }
    }

    /// Retries every pending instruction against the symbols known now.
    pub open spec fn flush(self, arch: ArchView) -> Step {
        EmitModel { pending: Seq::empty(), ..self }.flush_entries(arch, self.pending)
    }

    /// A label definition. A local label is recorded at the cursor. A global
    /// label first flushes the queue and ends the scope of the local labels.
    pub open spec fn emit_label(self, arch: ArchView, name: Seq<char>) -> Step {
        if is_local_label(name) {
            if self.locals.contains_key(name) {
                Err(EmitErrorView::DuplicateLabel(name))
            } else {
                Ok(EmitModel { locals: self.locals.insert(name, self.cursor as u64), ..self })
            }
        } else {
            match self.flush(arch) {
                Err(e) => Err(e),
                Ok(flushed) => if flushed.globals.contains_key(name) {
                    Err(EmitErrorView::DuplicateLabel(name))
                } else {
                    Ok(
                        EmitModel {
                            locals: Map::empty(),
                            globals: flushed.globals.insert(name, flushed.cursor as u64),
                            ..flushed
                        },
                    )
                },
            }
        }
    }

    /// A directive or a machine instruction, told apart by its name.
    pub open spec fn emit_statement(self, arch: ArchView, name: Seq<char>, args: Seq<NodeView>) -> Step {
        if is_org(name) {
            self.emit_org(arch, name, args)
        } else if is_equ(name) {
            self.emit_equ(arch, name, args)
        } else {
            self.emit_instruction(arch, name, args)
        }
    }

    /// The end of a sequence of nodes: a last flush, after which no
    /// instruction may still wait for a symbol.
    pub open spec fn finish(self, arch: ArchView) -> Step {
        match self.flush(arch) {
            Err(e) => Err(e),
            Ok(flushed) => if flushed.pending.len() > 0 {
                Err(
                    EmitErrorView::UnexpectedNodeType(
                        placed_debug_text(flushed.pending[0].position, flushed.pending[0].node()),
                    ),
                )
            } else {
                Ok(flushed)
            },
        }
    }

    /// The emission of one node.
    pub open spec fn emit_node(self, arch: ArchView, node: NodeView) -> Step
        decreases node, 0nat,
    {
        match node {
            NodeView::Root(nodes) => match self.emit_from(arch, nodes, 0) {
                Err(e) => Err(e),
                Ok(emitted) => emitted.finish(arch),
            },
            NodeView::Label(name) => self.emit_label(arch, name),
            NodeView::Instruction(name, args) => self.emit_statement(arch, name, args),
            _ => Err(EmitErrorView::UnexpectedNodeType(debug_text(node))),
        }
    }

    /// The emission of the nodes `nodes[from ..]`, one after the other, up to
    /// the first that fails.
    pub open spec fn emit_from(self, arch: ArchView, nodes: Seq<NodeView>, from: nat) -> Step
        decreases nodes, nodes.len() - from,
    {
        if from >= nodes.len() {
            Ok(self)
        } else {
            match self.emit_node(arch, nodes[from as int]) {
                Err(e) => Err(e),
                Ok(next) => next.emit_from(arch, nodes, from + 1),
            }
        }
    }
}

/// The image that the emission of `ast` from the empty state produces.
pub open spec fn emit_image(arch: ArchView, ast: NodeView) -> Result<Seq<u8>, EmitErrorView> {
    match EmitModel::empty().emit_node(arch, ast) {
        Ok(done) => Ok(done.image),
        Err(e) => Err(e),
    }
}

} // verus!
