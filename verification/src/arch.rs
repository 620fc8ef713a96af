//! The architecture description that the emitter consults: named constants,
//! instruction definitions keyed by mnemonic, and the bit-level packing of an
//! instruction word.

use vstd::hash_map::StringHashMap;
use vstd::prelude::*;

verus! {

/// The widest instruction word, in bits, that a format can describe.
pub const MAX_INSTRUCTION_BITS: usize = 64;

/// The largest number of arguments that an instruction definition can declare.
pub const MAX_ARGUMENTS: usize = 64;

/// What an argument bound to a field must have reduced to.
#[derive(Clone, Copy, Debug, PartialEq, Eq, Structural)]
pub enum FieldType {
    /// An immediate: the argument is an integer.
    Value,
    /// A register reference.
    Register,
}

/// One field of an instruction format: the bits `offset .. offset + width` of
/// the instruction word, counted from the least significant bit.
#[derive(Clone, Copy, Debug, PartialEq, Eq, Structural)]
pub struct InstructionField {
    pub vtype: FieldType,
    pub offset: u32,
    pub width: u32,
}

/// Why the bit packer refused a list of argument values.
#[derive(Clone, Copy, Debug, PartialEq, Eq, Structural)]
pub enum EncodeFailure {
    /// The number of values differs from the number of declared arguments.
    ArgumentCount,
    /// Some value has a set bit at or above its field's width.
    OutOfRange,
}

/// The number of bytes that hold `bits` bits.
pub open spec fn bytes_for_bits(bits: nat) -> nat {
    (bits + 7) / 8
}

/// Whether `value` can be stored in `width` bits.
pub open spec fn fits(value: u64, width: u32) -> bool {
    width >= 64 || (value >> (width as u64)) == 0
}

/// The `count` low bytes of `word`, least significant first.
pub open spec fn le_bytes(word: u64, count: nat) -> Seq<u8> {
    Seq::new(count, |k: int| ((word >> ((8 * k) as u64)) & 0xff) as u8)
}

/// `image` with `bytes` written over the positions from `start` on.
pub open spec fn write_at(image: Seq<u8>, start: int, bytes: Seq<u8>) -> Seq<u8> {
    Seq::new(
        image.len(),
        |k: int|
            if start <= k < start + bytes.len() {
                bytes[k - start]
            } else {
                image[k]
            },
    )
}

/// The mathematical value of an [`InstructionFormat`].
pub ghost struct FormatView {
    /// Total length of the instruction word in bits.
    pub ilen: nat,
    /// The fields, in declaration order.
    pub fields: Seq<InstructionField>,
}

impl FormatView {
    /// Every field has at least one bit and lies inside the word, and the word
    /// has at most [`MAX_INSTRUCTION_BITS`] bits.
    pub open spec fn wf(self) -> bool {
        &&& self.ilen <= MAX_INSTRUCTION_BITS
        &&& forall|i: int|
            0 <= i < self.fields.len() ==> 1 <= (#[trigger] self.fields[i]).width
                && self.fields[i].offset + self.fields[i].width <= self.ilen
    }

    /// The number of bytes that an instruction of this format occupies.
    pub open spec fn ilen_bytes(self) -> nat {
        bytes_for_bits(self.ilen)
    }
}

/// The mathematical value of an [`InstructionDefinition`].
pub ghost struct InstructionView {
    pub format: FormatView,
    /// For each argument, the index of the field that it is bound to.
    pub args: Seq<usize>,
    /// The bits of the word that no argument sets.
    pub fixed: u64,
}

impl InstructionView {
    /// The format is well formed and every argument names a field of it.
    pub open spec fn wf(self) -> bool {
        &&& self.format.wf()
        &&& self.args.len() <= MAX_ARGUMENTS
        &&& forall|i: int| 0 <= i < self.args.len() ==> (#[trigger] self.args[i]) < self.format.fields.len()
    }

    /// The field that argument `i` is bound to.
    pub open spec fn field_of(self, i: int) -> InstructionField {
        self.format.fields[self.args[i] as int]
    }

    /// Whether each of `values` can be stored in the field of its argument.
    pub open spec fn all_fit(self, values: Seq<u64>) -> bool {
        forall|i: int| 0 <= i < values.len() ==> fits(#[trigger] values[i], self.field_of(i).width)
    }

    /// The instruction word after the first `n` values have been placed: the
    /// fixed bits, or-ed with each value shifted to the offset of its field.
    pub open spec fn word(self, values: Seq<u64>, n: nat) -> u64
        decreases n,
    {
        if n == 0 {
            self.fixed
        } else {
            self.word(values, (n - 1) as nat) | (values[n - 1] << (self.field_of(n - 1).offset as u64))
        }
    }

    /// The bytes of the encoded instruction, least significant byte first, or
    /// the reason why `values` cannot be encoded.
    pub open spec fn encode(self, values: Seq<u64>) -> Result<Seq<u8>, EncodeFailure> {
        if values.len() != self.args.len() {
            Err(EncodeFailure::ArgumentCount)
        } else if !self.all_fit(values) {
            Err(EncodeFailure::OutOfRange)
        } else {
            Ok(le_bytes(self.word(values, values.len()), self.format.ilen_bytes()))
        }
    }
}

/// The bit layout shared by a family of instructions.
pub struct InstructionFormat {
    ilen: usize,
    fields: Vec<InstructionField>,
}

impl View for InstructionFormat {
    type V = FormatView;

    closed spec fn view(&self) -> FormatView {
        FormatView { ilen: self.ilen as nat, fields: self.fields@ }
    }
}

impl InstructionFormat {
    #[verifier::type_invariant]
    spec fn inv(&self) -> bool {
        self@.wf()
    }

    /// A format of `ilen` bits with the given fields, if it is well formed.
    pub fn new(ilen: usize, fields: Vec<InstructionField>) -> (r: Option<InstructionFormat>)
        ensures
            r is Some <==> (FormatView { ilen: ilen as nat, fields: fields@ }).wf(),
            r matches Some(f) ==> f@ == (FormatView { ilen: ilen as nat, fields: fields@ }),
    {
        if ilen > MAX_INSTRUCTION_BITS {
            return None;
        }
        let mut i: usize = 0;
        while i < fields.len()
            invariant
                i <= fields.len(),
                ilen <= MAX_INSTRUCTION_BITS,
                forall|j: int|
                    0 <= j < i ==> 1 <= (#[trigger] fields@[j]).width && fields@[j].offset
                        + fields@[j].width <= ilen,
            decreases fields.len() - i,
        {
            let f = fields[i];
            if f.width < 1 || f.offset as u64 + f.width as u64 > ilen as u64 {
                return None;
            }
            i += 1;
        }
        Some(InstructionFormat { ilen, fields })
    }

    /// Total length of the instruction word in bits.
    pub fn ilen(&self) -> (r: usize)
        ensures
            r == self@.ilen,
            self@.wf(),
    {
        proof {
            use_type_invariant(self);
        }
        self.ilen
    }

    /// The fields, in declaration order.
    pub fn fields(&self) -> (r: &Vec<InstructionField>)
        ensures
            r@ == self@.fields,
            self@.wf(),
    {
        proof {
            use_type_invariant(self);
        }
        &self.fields
    }
}

/// One instruction of the architecture: its mnemonic, its format, and the
/// field that each of its arguments is bound to.
pub struct InstructionDefinition {
    name: String,
    format: InstructionFormat,
    args: Vec<usize>,
    fixed: u64,
}

impl View for InstructionDefinition {
    type V = InstructionView;

    closed spec fn view(&self) -> InstructionView {
        InstructionView { format: self.format@, args: self.args@, fixed: self.fixed }
    }
}

impl InstructionDefinition {
    #[verifier::type_invariant]
    spec fn inv(&self) -> bool {
        self@.wf()
    }

    /// The mnemonic, as a sequence of characters.
    pub closed spec fn spec_name(&self) -> Seq<char> {
        self.name@
    }

    /// The instruction `name` of the given format whose `i`-th argument is
    /// stored in field `args[i]`, over the fixed bits `fixed`; `None` if there
    /// are more than [`MAX_ARGUMENTS`] arguments or one of them names no field.
    pub fn new(name: String, format: InstructionFormat, args: Vec<usize>, fixed: u64) -> (r: Option<
        InstructionDefinition,
    >)
        ensures
            r is Some <==> (InstructionView { format: format@, args: args@, fixed }).wf(),
            r matches Some(d) ==> d@ == (InstructionView { format: format@, args: args@, fixed })
                && d.spec_name() == name@,
    {
        let field_count = format.fields().len();
        if args.len() > MAX_ARGUMENTS {
            return None;
        }
        let mut i: usize = 0;
        while i < args.len()
            invariant
                i <= args.len(),
                field_count == format@.fields.len(),
                forall|j: int| 0 <= j < i ==> (#[trigger] args@[j]) < field_count,
            decreases args.len() - i,
        {
            if args[i] >= field_count {
                return None;
            }
            i += 1;
        }
        Some(InstructionDefinition { name, format, args, fixed })
    }

    /// The mnemonic.
    pub fn name(&self) -> (r: &String)
        ensures
            r@ == self.spec_name(),
    {
        &self.name
    }

    /// The format of the instruction word.
    pub fn get_format(&self) -> (r: &InstructionFormat)
        ensures
            r@ == self@.format,
            self@.wf(),
    {
        proof {
            use_type_invariant(self);
        }
        &self.format
    }

    /// For each argument, the index of its field in the format.
    pub fn args(&self) -> (r: &Vec<usize>)
        ensures
            r@ == self@.args,
            self@.wf(),
    {
        proof {
            use_type_invariant(self);
        }
        &self.args
    }

    /// Packs `argv`, one value for each argument in declared order, into the
    /// instruction word and writes its bytes over `out[start ..]`, least
    /// significant byte first. Nothing is written if the values are refused.
    pub fn encode_into(&self, out: &mut Vec<u8>, start: usize, argv: &[u64]) -> (r: Result<
        (),
        EncodeFailure,
    >)
        requires
            start + self@.format.ilen_bytes() <= old(out)@.len(),
        ensures
            match r {
                Ok(()) => self@.encode(argv@) matches Ok(bytes) && final(out)@ == write_at(
                    old(out)@,
                    start as int,
                    bytes,
                ),
                Err(e) => self@.encode(argv@) == Err::<Seq<u8>, EncodeFailure>(e) && final(out)@
                    == old(out)@,
            },
    {
        proof {
            use_type_invariant(self);
            use_type_invariant(&self.format);
        }
        if argv.len() != self.args.len() {
            return Err(EncodeFailure::ArgumentCount);
        }
        let mut word: u64 = self.fixed;
        let mut i: usize = 0;
        while i < argv.len()
            invariant
                i <= argv.len(),
                argv@.len() == self@.args.len(),
                self@.wf(),
                self@.format.fields == self.format.fields@,
                self@.args == self.args@,
                word == self@.word(argv@, i as nat),
                forall|j: int| 0 <= j < i ==> fits(#[trigger] argv@[j], self@.field_of(j).width),
            decreases argv.len() - i,
        {
            let field = self.format.fields[self.args[i]];
            let value = argv[i];
            if field.width < 64 && (value >> (field.width as u64)) != 0 {
                assert(!fits(argv@[i as int], self@.field_of(i as int).width));
                return Err(EncodeFailure::OutOfRange);
            }
            word = word | (value << (field.offset as u64));
            i += 1;
        }
        let count = (self.format.ilen + 7) / 8;
        let ghost bytes = le_bytes(word, count as nat);
        let ghost before = out@;
        let len = out.len();
        let mut k: usize = 0;
        while k < count
            invariant
                k <= count <= 8,
                start + count <= len,
                len == out@.len(),
                out@.len() == before.len(),
                bytes == le_bytes(word, count as nat),
                forall|j: int|
                    0 <= j < out@.len() ==> #[trigger] out@[j] == (if start <= j < start + k {
                        bytes[j - start]
                    } else {
                        before[j]
                    }),
            decreases count - k,
        {
            let byte = ((word >> ((8 * k) as u64)) & 0xff) as u8;
            out.set(start + k, byte);
            k += 1;
        }
        assert(out@ =~= write_at(before, start as int, bytes));
        Ok(())
    }
}

/// The mathematical value of a [`RiscVSpec`].
pub ghost struct ArchView {
    /// The named integer constants.
    pub consts: Map<Seq<char>, u64>,
    /// The instruction definitions, keyed by mnemonic.
    pub instructions: Map<Seq<char>, InstructionView>,
}

impl ArchView {
    /// The constant `name`, or `default` where the architecture has none.
    pub open spec fn const_or(self, name: Seq<char>, default: u64) -> u64 {
        if self.consts.contains_key(name) {
            self.consts[name]
        } else {
            default
        }
    }

    /// The instruction alignment in bytes: `IALIGN` bits, 32 by default,
    /// rounded up to whole bytes.
    pub open spec fn ialign_bytes(self) -> nat {
        bytes_for_bits(self.const_or("IALIGN"@, 32) as nat)
    }

    /// The longest instruction in bytes: `ILEN` bits, 32 by default, rounded
    /// up to whole bytes.
    pub open spec fn max_ilen_bytes(self) -> nat {
        bytes_for_bits(self.const_or("ILEN"@, 32) as nat)
    }
}

/// An architecture description: named constants and instruction definitions.
pub struct RiscVSpec {
    consts: StringHashMap<u64>,
    instructions: StringHashMap<InstructionDefinition>,
}

impl View for RiscVSpec {
    type V = ArchView;

    closed spec fn view(&self) -> ArchView {
        ArchView {
            consts: self.consts@,
            instructions: self.instructions@.map_values(|d: InstructionDefinition| d@),
        }
    }
}

/// The number of whole bytes that hold `bits` bits.
pub fn bits_to_bytes(bits: u64) -> (r: u64)
    ensures
        r == bytes_for_bits(bits as nat),
{
    if bits % 8 == 0 {
        bits / 8
    } else {
        bits / 8 + 1
    }
}

impl RiscVSpec {
    /// An architecture with no constant and no instruction.
    pub fn new() -> (r: RiscVSpec)
        ensures
            r@.consts == Map::<Seq<char>, u64>::empty(),
            r@.instructions == Map::<Seq<char>, InstructionView>::empty(),
    {
        let r = RiscVSpec { consts: StringHashMap::new(), instructions: StringHashMap::new() };
        assert(r@.instructions =~= Map::<Seq<char>, InstructionView>::empty());
        r
    }

    /// Gives the constant `name` the value `value`, replacing any earlier one.
    pub fn set_const(&mut self, name: String, value: u64)
        ensures
            final(self)@.consts == old(self)@.consts.insert(name@, value),
            final(self)@.instructions == old(self)@.instructions,
    {
        self.consts.insert(name, value);
    }

    /// Adds `def` under its mnemonic, replacing any earlier definition of it.
    pub fn add_instruction(&mut self, def: InstructionDefinition)
        ensures
            final(self)@.consts == old(self)@.consts,
            final(self)@.instructions == old(self)@.instructions.insert(def.spec_name(), def@),
    {
        let key = def.name().clone();
        self.instructions.insert(key, def);
        assert(self@.instructions =~= old(self)@.instructions.insert(def.spec_name(), def@));
    }

    /// The value of the constant `name`, if the architecture defines it.
    pub fn get_const(&self, name: &str) -> (r: Option<u64>)
        ensures
            r == (if self@.consts.contains_key(name@) {
                Some(self@.consts[name@])
            } else {
                None
            }),
    {
        match self.consts.get(name) {
            Some(value) => Some(*value),
            None => None,
        }
    }

    /// The definition of the instruction with mnemonic `name`, if there is one.
    pub fn get_instruction_by_name(&self, name: &str) -> (r: Option<&InstructionDefinition>)
        ensures
            match r {
                Some(def) => self@.instructions.contains_key(name@) && self@.instructions[name@]
                    == def@ && def@.wf(),
                None => !self@.instructions.contains_key(name@),
            },
    {
        let r = self.instructions.get(name);
        proof {
            if let Some(def) = r {
                use_type_invariant(def);
            }
        }
        r
    }

    /// The instruction alignment in bytes.
    pub fn ialign_bytes(&self) -> (r: u64)
        ensures
            r == self@.ialign_bytes(),
    {
        match self.get_const("IALIGN") {
            Some(bits) => bits_to_bytes(bits),
            None => bits_to_bytes(32),
        }
    }

    /// The longest instruction in bytes.
    pub fn max_ilen_bytes(&self) -> (r: u64)
        ensures
            r == self@.max_ilen_bytes(),
    {
        match self.get_const("ILEN") {
            Some(bits) => bits_to_bytes(bits),
            None => bits_to_bytes(32),
        }
    }
}

} // verus!
