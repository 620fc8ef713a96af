//! What holds of every emission: laws that relate the steps of the emitter
//! to one another, proved over the model of the emission state.

use crate::arch::{write_at, ArchView};
use crate::emit::model::{
    is_equ, is_local_label, is_org, align_up, bound_values, extend_to, first_mismatch, max_image_len, still_waiting, DeferredView,
    EmitErrorView, EmitModel,
};
use crate::node::NodeView;
use vstd::prelude::*;

verus! {

/// A tree that simplified completely holds no identifier: simplifying the
/// result once more, against any table, gives the same tree again.
pub proof fn lemma_resolved_is_fixed(
    node: NodeView,
    env: Map<Seq<char>, u64>,
    other: Map<Seq<char>, u64>,
)
    requires
        node.simplify(env).1,
    ensures
        node.simplify(env).0.simplify(other) == (node.simplify(env).0, true),
    decreases node,
{
    match node {
        NodeView::Argument(inner) => {
            lemma_resolved_is_fixed(*inner, env, other);
        },
        NodeView::Instruction(name, args) => {
            lemma_all_resolved_is_fixed(args, env, other);
        },
        NodeView::Root(nodes) => {
            lemma_all_resolved_is_fixed(nodes, env, other);
        },
        _ => {},
    }
}

/// The same of a sequence of trees.
pub proof fn lemma_all_resolved_is_fixed(
    nodes: Seq<NodeView>,
    env: Map<Seq<char>, u64>,
    other: Map<Seq<char>, u64>,
)
    requires
        NodeView::all_resolved(nodes, env),
    ensures
        NodeView::simplify_all(NodeView::simplify_all(nodes, env), other) == NodeView::simplify_all(
            nodes,
            env,
        ),
        NodeView::all_resolved(NodeView::simplify_all(nodes, env), other),
    decreases nodes,
{
    let reduced = NodeView::simplify_all(nodes, env);
    assert forall|i: int| 0 <= i < nodes.len() implies (#[trigger] reduced[i]).simplify(other) == (
        reduced[i],
        true,
    ) by {
        assert(nodes[i].simplify(env).1);
        lemma_resolved_is_fixed(nodes[i], env, other);
    }
    assert(NodeView::simplify_all(reduced, other) =~= reduced);
}

/// A tree that simplifies completely keeps its result when symbols are added:
/// against every table that extends the first it simplifies to the same tree.
pub proof fn lemma_resolved_under_extension(
    node: NodeView,
    early: Map<Seq<char>, u64>,
    late: Map<Seq<char>, u64>,
)
    requires
        early.submap_of(late),
        node.simplify(early).1,
    ensures
        node.simplify(late) == node.simplify(early),
    decreases node,
{
    match node {
        NodeView::Identifier(name) => {
            assert(early.dom().contains(name));
            assert(late.contains_key(name) && late[name] == early[name]);
        },
        NodeView::Argument(inner) => {
            lemma_resolved_under_extension(*inner, early, late);
        },
        NodeView::Instruction(name, args) => {
            lemma_all_resolved_under_extension(args, early, late);
        },
        NodeView::Root(nodes) => {
            lemma_all_resolved_under_extension(nodes, early, late);
        },
        _ => {},
    }
}

/// The same of a sequence of trees.
pub proof fn lemma_all_resolved_under_extension(
    nodes: Seq<NodeView>,
    early: Map<Seq<char>, u64>,
    late: Map<Seq<char>, u64>,
)
    requires
        early.submap_of(late),
        NodeView::all_resolved(nodes, early),
    ensures
        NodeView::simplify_all(nodes, late) == NodeView::simplify_all(nodes, early),
        NodeView::all_resolved(nodes, late),
    decreases nodes,
{
    assert forall|i: int| 0 <= i < nodes.len() implies (#[trigger] nodes[i]).simplify(late)
        == nodes[i].simplify(early) by {
        assert(nodes[i].simplify(early).1);
        lemma_resolved_under_extension(nodes[i], early, late);
    }
    assert(NodeView::simplify_all(nodes, late) =~= NodeView::simplify_all(nodes, early));
}

/// `align_up` gives a multiple of `align` that is not below `pos` and less
/// than `align` above it.
pub proof fn lemma_align_up(pos: int, align: int)
    requires
        0 <= pos,
        0 < align,
    ensures
        align_up(pos, align) % align == 0,
        pos <= align_up(pos, align) < pos + align,
{
    let up = align_up(pos, align);
    vstd::arithmetic::div_mod::lemma_fundamental_div_mod(pos, align);
    vstd::arithmetic::div_mod::lemma_mod_bound(pos, align);
    if pos % align != 0 {
        let q = pos / align;
        assert(up == (q + 1) * align) by (nonlinear_arith)
            requires
                pos == align * q + pos % align,
                up == pos + (align - pos % align),
        ;
        vstd::arithmetic::div_mod::lemma_mod_multiples_basic(q + 1, align);
    }
}

/// No multiple of `align` lies between `pos` and `align_up(pos, align)`.
pub proof fn lemma_align_up_is_least(pos: int, align: int, multiple: int)
    requires
        0 <= pos <= multiple,
        0 < align,
        multiple % align == 0,
    ensures
        align_up(pos, align) <= multiple,
{
    let up = align_up(pos, align);
    vstd::arithmetic::div_mod::lemma_fundamental_div_mod(pos, align);
    vstd::arithmetic::div_mod::lemma_fundamental_div_mod(multiple, align);
    vstd::arithmetic::div_mod::lemma_mod_bound(pos, align);
    if pos % align != 0 && multiple < up {
        let q = pos / align;
        let k = multiple / align;
        assert(false) by (nonlinear_arith)
            requires
                multiple == align * k,
                pos == align * q + pos % align,
                up == pos + (align - pos % align),
                0 < pos % align < align,
                pos <= multiple < up,
                0 < align,
        ;
    }
}

/// Which names resolve, and to what, depends on the three tables of the
/// state alone.
pub proof fn lemma_scope_of_equal_tables(a: EmitModel, b: EmitModel, arch: ArchView)
    requires
        a.globals == b.globals,
        a.locals == b.locals,
        a.constants == b.constants,
    ensures
        a.scope(arch) == b.scope(arch),
{
    assert(a.scope(arch) =~= b.scope(arch)) by {
        assert forall|name: Seq<char>| a.resolve(arch, name) == b.resolve(arch, name) by {}
    }
}

/// Alignment: an instruction that is emitted starts at the first multiple of
/// the instruction alignment at or after the cursor, and the cursor ends
/// behind it. Outside the bytes of the instruction, the image keeps what it
/// held and is zero where it grew; so the gap that alignment opens behind the
/// end of the image holds zero bytes. The tables are left as they were. An
/// instruction whose symbols are all known gets its encoding and leaves the
/// queue alone; any other is queued as it was written, at its start, behind a
/// placeholder that is zero where the image grew.
pub proof fn lemma_instruction_is_aligned(
    arch: ArchView,
    st: EmitModel,
    name: Seq<char>,
    args: Seq<NodeView>,
)
    requires
        st.emit_instruction(arch, name, args) is Ok,
    ensures
        ({
            let next = st.emit_instruction(arch, name, args)->Ok_0;
            let def = arch.instructions[name];
            let align = arch.ialign_bytes() as int;
            let length = def.format.ilen_bytes() as int;
            let start = align_up(st.cursor as int, align);
            let reduced = NodeView::simplify_all(args, st.scope(arch));
            &&& arch.instructions.contains_key(name)
            &&& args.len() == def.args.len()
            &&& length <= arch.max_ilen_bytes()
            &&& align > 0
            &&& start % align == 0
            &&& st.cursor <= start < st.cursor + align
            &&& next.cursor == start + length <= max_image_len()
            &&& next.image.len() == if st.image.len() < start + length {
                start + length
            } else {
                st.image.len() as int
            }
            &&& forall|k: int|
                0 <= k < next.image.len() && !(start <= k < start + length) ==> #[trigger] next.image[k]
                    == (if k < st.image.len() {
                    st.image[k]
                } else {
                    0u8
                })
            &&& next.globals == st.globals
            &&& next.locals == st.locals
            &&& next.constants == st.constants
            &&& if NodeView::all_resolved(args, st.scope(arch)) {
                &&& next.pending == st.pending
                &&& first_mismatch(def, reduced, 0) is None
                &&& def.encode(bound_values(def, reduced)) is Ok
                &&& next.image.subrange(start, start + length) == def.encode(
                    bound_values(def, reduced),
                )->Ok_0
            } else {
                &&& next.pending == st.pending.push(
                    DeferredView { position: start as usize, name, args },
                )
                &&& forall|k: int|
                    start <= k < start + length ==> #[trigger] next.image[k] == (if k
                        < st.image.len() {
                        st.image[k]
                    } else {
                        0u8
                    })
            }
        }),
{
    let next = st.emit_instruction(arch, name, args)->Ok_0;
    let def = arch.instructions[name];
    let align = arch.ialign_bytes() as int;
    let length = def.format.ilen_bytes() as int;
    let start = align_up(st.cursor as int, align);
    let reduced = NodeView::simplify_all(args, st.scope(arch));
    lemma_align_up(st.cursor as int, align);
    let reserved = st.at(start as usize).reserve(length);
    assert(reserved.image == extend_to(st.image, start + length));
    if NodeView::all_resolved(args, st.scope(arch)) {
        let bytes = def.encode(bound_values(def, reduced))->Ok_0;
        assert(bytes.len() == length);
        assert(next.image == write_at(reserved.image, start, bytes));
        assert(next.image.subrange(start, start + length) =~= bytes);
    }
}

/// Retrying entries leaves the tables and the cursor as they were, never
/// shortens the image, and queues again, in their order, exactly the entries
/// that still wait for a symbol.
pub proof fn lemma_flush_entries(arch: ArchView, st: EmitModel, entries: Seq<DeferredView>)
    requires
        st.flush_entries(arch, entries) is Ok,
    ensures
        ({
            let done = st.flush_entries(arch, entries)->Ok_0;
            &&& done.globals == st.globals
            &&& done.locals == st.locals
            &&& done.constants == st.constants
            &&& done.cursor == st.cursor
            &&& done.image.len() >= st.image.len()
            &&& done.pending == st.pending + entries.filter(still_waiting(st.scope(arch)))
        }),
    decreases entries.len(),
{
    let waits = still_waiting(st.scope(arch));
    if entries.len() == 0 {
        assert(entries.filter(waits) =~= Seq::<DeferredView>::empty());
        assert(st.pending + Seq::<DeferredView>::empty() =~= st.pending);
    } else {
        let entry = entries[0];
        let rest = entries.drop_first();
        assert(entries =~= seq![entry] + rest);
        Seq::filter_distributes_over_add(seq![entry], rest, waits);
        reveal_with_fuel(Seq::filter, 2);
        assert(seq![entry].drop_last() =~= Seq::<DeferredView>::empty());
        assert(seq![entry].last() == entry);
        if waits(entry) {
            let queued = EmitModel { pending: st.pending.push(entry), ..st };
            lemma_scope_of_equal_tables(queued, st, arch);
            lemma_flush_entries(arch, queued, rest);
            assert(seq![entry].filter(waits) =~= seq![entry]);
            assert(st.pending.push(entry) + rest.filter(waits) =~= st.pending + (seq![entry]
                + rest.filter(waits)));
        } else {
            let reduced = NodeView::simplify_all(entry.args, st.scope(arch));
            let placed = st.at(entry.position);
            lemma_scope_of_equal_tables(placed, st, arch);
            lemma_all_resolved_is_fixed(entry.args, st.scope(arch), st.scope(arch));
            lemma_instruction_is_aligned(arch, placed, entry.name, reduced);
            let next = placed.emit_instruction(arch, entry.name, reduced)->Ok_0;
            let back = next.at(st.cursor);
            lemma_scope_of_equal_tables(back, st, arch);
            lemma_flush_entries(arch, back, rest);
            assert(seq![entry].filter(waits) =~= Seq::<DeferredView>::empty());
            assert(st.pending + rest.filter(waits) =~= st.pending + (Seq::<DeferredView>::empty()
                + rest.filter(waits)));
        }
    }
}

/// A flush leaves the tables and the cursor as they were, never shortens the
/// image, and keeps in the queue, in their order, exactly the entries that
/// still wait for a symbol.
pub proof fn lemma_flush(arch: ArchView, st: EmitModel)
    requires
        st.flush(arch) is Ok,
    ensures
        ({
            let done = st.flush(arch)->Ok_0;
            &&& done.globals == st.globals
            &&& done.locals == st.locals
            &&& done.constants == st.constants
            &&& done.cursor == st.cursor
            &&& done.image.len() >= st.image.len()
            &&& done.pending == st.pending.filter(still_waiting(st.scope(arch)))
        }),
{
    let cleared = EmitModel { pending: Seq::empty(), ..st };
    lemma_scope_of_equal_tables(cleared, st, arch);
    lemma_flush_entries(arch, cleared, st.pending);
    assert(Seq::<DeferredView>::empty() + st.pending.filter(still_waiting(st.scope(arch)))
        =~= st.pending.filter(still_waiting(st.scope(arch))));
}

/// Completeness at the end of a sequence: where the last flush succeeds, the
/// emission succeeds exactly if every pending instruction could be reduced
/// fully; it then leaves an empty queue. Where one still waits for a symbol,
/// the emission fails, with the error that names the node which nothing
/// expected: no placeholder is passed off as final output.
pub proof fn lemma_finish_is_complete(arch: ArchView, st: EmitModel)
    ensures
        st.finish(arch) matches Ok(done) ==> done.pending.len() == 0 && forall|i: int|
            0 <= i < st.pending.len() ==> NodeView::all_resolved(
                (#[trigger] st.pending[i]).args,
                st.scope(arch),
            ),
        (exists|i: int|
            0 <= i < st.pending.len() && !NodeView::all_resolved(
                (#[trigger] st.pending[i]).args,
                st.scope(arch),
            )) ==> st.finish(arch) is Err,
        (st.flush(arch) is Ok && exists|i: int|
            0 <= i < st.pending.len() && !NodeView::all_resolved(
                (#[trigger] st.pending[i]).args,
                st.scope(arch),
            )) ==> st.finish(arch) matches Err(EmitErrorView::UnexpectedNodeType(_)),
{
    let waits = still_waiting(st.scope(arch));
    if st.flush(arch) is Ok {
        lemma_flush(arch, st);
        let done = st.flush(arch)->Ok_0;
        broadcast use vstd::seq_lib::group_filter_ensures;
        assert forall|i: int| 0 <= i < st.pending.len() && waits(#[trigger] st.pending[i]) implies done.pending.len()
            > 0 by {
            assert(st.pending.filter(waits).contains(st.pending[i]));
        }
    }
}

/// What an instruction whose symbols are all known does to the state depends
/// on its arguments only through what they simplify to.
pub proof fn lemma_instruction_reads_reduced_arguments(
    arch: ArchView,
    st: EmitModel,
    name: Seq<char>,
    left: Seq<NodeView>,
    right: Seq<NodeView>,
)
    requires
        left.len() == right.len(),
        NodeView::simplify_all(left, st.scope(arch)) == NodeView::simplify_all(right, st.scope(arch)),
        NodeView::all_resolved(left, st.scope(arch)),
        NodeView::all_resolved(right, st.scope(arch)),
    ensures
        st.emit_instruction(arch, name, left) == st.emit_instruction(arch, name, right),
{
}

/// Retrying an entry whose symbols are all known is emitting its instruction
/// as it was written: reducing the arguments first changes nothing.
pub proof fn lemma_retry_is_emission(arch: ArchView, st: EmitModel, entry: DeferredView)
    requires
        NodeView::all_resolved(entry.args, st.scope(arch)),
    ensures
        st.at(entry.position).emit_instruction(
            arch,
            entry.name,
            NodeView::simplify_all(entry.args, st.scope(arch)),
        ) == st.at(entry.position).emit_instruction(arch, entry.name, entry.args),
{
    let env = st.scope(arch);
    let placed = st.at(entry.position);
    lemma_scope_of_equal_tables(placed, st, arch);
    lemma_all_resolved_is_fixed(entry.args, env, env);
    lemma_instruction_reads_reduced_arguments(
        arch,
        placed,
        entry.name,
        NodeView::simplify_all(entry.args, env),
        entry.args,
    );
}

/// Entries are retried one after the other: the retry of `entries` is the
/// retry of the first `count` of them, followed from the state that they left
/// by the retry of the others.
pub proof fn lemma_flush_entries_splits(
    arch: ArchView,
    st: EmitModel,
    entries: Seq<DeferredView>,
    count: int,
)
    requires
        0 <= count <= entries.len(),
    ensures
        st.flush_entries(arch, entries) == match st.flush_entries(arch, entries.take(count)) {
            Ok(mid) => mid.flush_entries(arch, entries.skip(count)),
            Err(e) => Err(e),
        },
    decreases count,
{
    if count == 0 {
        assert(entries.take(0) =~= Seq::<DeferredView>::empty());
        assert(entries.skip(0) =~= entries);
    } else {
        let head = entries.take(count);
        let entry = entries[0];
        assert(head[0] == entry);
        assert(head.drop_first() =~= entries.drop_first().take(count - 1));
        assert(entries.drop_first().skip(count - 1) =~= entries.skip(count));
        if !NodeView::all_resolved(entry.args, st.scope(arch)) {
            let queued = EmitModel { pending: st.pending.push(entry), ..st };
            lemma_flush_entries_splits(arch, queued, entries.drop_first(), count - 1);
        } else {
            let reduced = NodeView::simplify_all(entry.args, st.scope(arch));
            match st.at(entry.position).emit_instruction(arch, entry.name, reduced) {
                Ok(next) => {
                    lemma_flush_entries_splits(
                        arch,
                        next.at(st.cursor),
                        entries.drop_first(),
                        count - 1,
                    );
                },
                Err(e) => {},
            }
        }
    }
}

/// Forward references: let an instruction wait anywhere in the queue, and
/// let the flush know all its symbols. Then the flush, once the entries before
/// it have been retried, which leaves the tables and the cursor as they were,
/// emits the instruction as it was written, at its saved position and against
/// the symbols of the flush, and goes on with the entries behind it, the
/// cursor back where it was. So the instruction gets the encoding that it
/// would have got had its symbols been defined before it.
pub proof fn lemma_forward_reference(arch: ArchView, st: EmitModel, index: int)
    requires
        0 <= index < st.pending.len(),
        NodeView::all_resolved(st.pending[index].args, st.scope(arch)),
    ensures
        ({
            let entry = st.pending[index];
            let cleared = EmitModel { pending: Seq::empty(), ..st };
            &&& st.flush(arch) == match cleared.flush_entries(arch, st.pending.take(index)) {
                Ok(mid) => match mid.at(entry.position).emit_instruction(
                    arch,
                    entry.name,
                    entry.args,
                ) {
                    Ok(placed) => placed.at(mid.cursor).flush_entries(
                        arch,
                        st.pending.skip(index + 1),
                    ),
                    Err(e) => Err(e),
                },
                Err(e) => Err(e),
            }
            &&& cleared.flush_entries(arch, st.pending.take(index)) matches Ok(mid) ==> {
                &&& mid.cursor == st.cursor
                &&& mid.globals == st.globals
                &&& mid.locals == st.locals
                &&& mid.constants == st.constants
                &&& mid.scope(arch) == st.scope(arch)
            }
        }),
{
    let entry = st.pending[index];
    let cleared = EmitModel { pending: Seq::empty(), ..st };
    lemma_scope_of_equal_tables(cleared, st, arch);
    lemma_flush_entries_splits(arch, cleared, st.pending, index);
    if let Ok(mid) = cleared.flush_entries(arch, st.pending.take(index)) {
        lemma_flush_entries(arch, cleared, st.pending.take(index));
        lemma_scope_of_equal_tables(mid, st, arch);
        let rest = st.pending.skip(index);
        assert(rest[0] == entry);
        assert(rest.drop_first() =~= st.pending.skip(index + 1));
        lemma_retry_is_emission(arch, mid, entry);
    }
}

/// Forward references, seen from the first moment: an instruction whose
/// symbols are all known where it stands gets, against every later table in
/// which these symbols keep their values, the arguments that it got at first.
/// Emitted at once or retried later, it is encoded from the same values.
pub proof fn lemma_known_symbols_give_the_same_values(
    arch: ArchView,
    known: EmitModel,
    late: EmitModel,
    args: Seq<NodeView>,
)
    requires
        known.scope(arch).submap_of(late.scope(arch)),
        NodeView::all_resolved(args, known.scope(arch)),
    ensures
        NodeView::all_resolved(args, late.scope(arch)),
        NodeView::simplify_all(args, late.scope(arch)) == NodeView::simplify_all(
            args,
            known.scope(arch),
        ),
{
    lemma_all_resolved_under_extension(args, known.scope(arch), late.scope(arch));
}

/// Entries are permanent: a node that is emitted leaves every global label
/// and every defined constant in its table, with its value.
pub proof fn lemma_tables_grow(arch: ArchView, st: EmitModel, node: NodeView)
    requires
        st.emit_node(arch, node) is Ok,
    ensures
        st.globals.submap_of(st.emit_node(arch, node)->Ok_0.globals),
        st.constants.submap_of(st.emit_node(arch, node)->Ok_0.constants),
    decreases node, 0nat,
{
    match node {
        NodeView::Root(nodes) => {
            lemma_tables_grow_from(arch, st, nodes, 0);
            let emitted = st.emit_from(arch, nodes, 0)->Ok_0;
            lemma_flush(arch, emitted);
            let done = emitted.flush(arch)->Ok_0;
            lemma_submap_chain(st.globals, emitted.globals, done.globals);
            lemma_submap_chain(st.constants, emitted.constants, done.constants);
        },
        NodeView::Label(name) => {
            if !is_local_label(name) {
                lemma_flush(arch, st);
            }
        },
        NodeView::Instruction(name, args) => {
            if !is_org(name) && !is_equ(name) {
                lemma_instruction_is_aligned(arch, st, name, args);
            }
        },
        _ => {},
    }
}

/// The same of the nodes of a sequence from `from` on.
pub proof fn lemma_tables_grow_from(arch: ArchView, st: EmitModel, nodes: Seq<NodeView>, from: nat)
    requires
        st.emit_from(arch, nodes, from) is Ok,
    ensures
        st.globals.submap_of(st.emit_from(arch, nodes, from)->Ok_0.globals),
        st.constants.submap_of(st.emit_from(arch, nodes, from)->Ok_0.constants),
    decreases nodes, nodes.len() - from,
{
    if from < nodes.len() {
        lemma_tables_grow(arch, st, nodes[from as int]);
        let next = st.emit_node(arch, nodes[from as int])->Ok_0;
        lemma_tables_grow_from(arch, next, nodes, from + 1);
        let last = next.emit_from(arch, nodes, from + 1)->Ok_0;
        lemma_submap_chain(st.globals, next.globals, last.globals);
        lemma_submap_chain(st.constants, next.constants, last.constants);
    }
}

/// A table that extends an extension of `a` extends `a`.
proof fn lemma_submap_chain(a: Map<Seq<char>, u64>, b: Map<Seq<char>, u64>, c: Map<Seq<char>, u64>)
    requires
        a.submap_of(b),
        b.submap_of(c),
    ensures
        a.submap_of(c),
{
    assert forall|k: Seq<char>| #[trigger] a.dom().contains(k) implies c.dom().contains(k) && a[k]
        == c[k] by {
        assert(b.dom().contains(k));
        assert(c.dom().contains(k));
    }
}

/// A sequence is emitted piece by piece: the nodes from `from` on succeed
/// only if those up to `until` do, and then go on from the state that these
/// left.
pub proof fn lemma_emit_from_splits(
    arch: ArchView,
    st: EmitModel,
    nodes: Seq<NodeView>,
    from: nat,
    until: nat,
)
    requires
        from <= until <= nodes.len(),
    ensures
        st.emit_from(arch, nodes, from) == match st.emit_from(arch, nodes.take(until as int), from) {
            Ok(mid) => mid.emit_from(arch, nodes, until),
            Err(e) => Err(e),
        },
    decreases until - from,
{
    let head = nodes.take(until as int);
    if from < until {
        assert(head[from as int] == nodes[from as int]);
        match st.emit_node(arch, nodes[from as int]) {
            Ok(next) => {
                lemma_emit_from_splits(arch, next, nodes, from + 1, until);
            },
            Err(e) => {},
        }
    }
}

/// Duplicate detection for global labels: a sequence that defines the same
/// global label twice, wherever the two definitions stand, is not emitted.
/// Where all that stands before the second definition is emitted, and the
/// flush that the definition causes succeeds, the error is the duplicate
/// label.
pub proof fn lemma_duplicate_label_fails(
    arch: ArchView,
    st: EmitModel,
    nodes: Seq<NodeView>,
    first: nat,
    second: nat,
    name: Seq<char>,
)
    requires
        first < second < nodes.len(),
        nodes[first as int] == NodeView::Label(name),
        nodes[second as int] == NodeView::Label(name),
        !is_local_label(name),
    ensures
        st.emit_from(arch, nodes, 0) is Err,
        st.emit_node(arch, NodeView::Root(nodes)) is Err,
        (st.emit_from(arch, nodes.take(second as int), 0) matches Ok(mid) && mid.flush(arch) is Ok)
            ==> st.emit_from(arch, nodes, 0) == Err::<EmitModel, EmitErrorView>(
            EmitErrorView::DuplicateLabel(name),
        ),
{
    let head = nodes.take(second as int);
    lemma_emit_from_splits(arch, st, nodes, 0, second);
    lemma_emit_from_splits(arch, st, head, 0, first);
    if let Ok(mid) = st.emit_from(arch, head, 0) {
        let before = st.emit_from(arch, head.take(first as int), 0)->Ok_0;
        assert(head[first as int] == nodes[first as int]);
        let defined = before.emit_node(arch, head[first as int])->Ok_0;
        lemma_flush(arch, before);
        assert(defined.globals.contains_key(name));
        lemma_tables_grow_from(arch, defined, head, first + 1);
        assert(defined.globals.dom().contains(name));
        assert(mid.globals.contains_key(name));
        if mid.flush(arch) is Ok {
            lemma_flush(arch, mid);
            assert(mid.emit_label(arch, name) == Err::<EmitModel, EmitErrorView>(
                EmitErrorView::DuplicateLabel(name),
            ));
        }
        assert(mid.emit_node(arch, nodes[second as int]) == mid.emit_label(arch, name));
        assert(mid.emit_from(arch, nodes, second) is Err);
    }
    assert(st.emit_node(arch, NodeView::Root(nodes)) is Err) by {
        reveal_with_fuel(EmitModel::emit_node, 2);
    }
}

/// The names of the two kinds of directive differ.
pub proof fn lemma_directive_names_differ(name: Seq<char>)
    ensures
        !(is_org(name) && is_equ(name)),
{
    reveal_strlit(".org");
    reveal_strlit(".ORG");
    reveal_strlit(".equ");
    reveal_strlit(".EQU");
    reveal_strlit(".define");
    reveal_strlit(".DEFINE");
    if is_org(name) && is_equ(name) {
        assert(name[1] == 'o' || name[1] == 'O');
        assert(name[1] == 'e' || name[1] == 'E' || name[1] == 'd' || name[1] == 'D');
    }
}

/// Whether `node` is a directive that defines the constant `name`.
pub open spec fn defines_constant(node: NodeView, name: Seq<char>) -> bool {
    node matches NodeView::Instruction(directive, args) && is_equ(directive) && args.len() == 2
        && args[0].identifier_argument() == Some(name)
}

/// Duplicate detection for constants: a sequence that defines the same
/// constant twice, wherever the two directives stand, is not emitted. Where
/// all that stands before the second directive is emitted and the value of
/// the second reduces to an integer, the error is the duplicate constant.
pub proof fn lemma_duplicate_constant_fails(
    arch: ArchView,
    st: EmitModel,
    nodes: Seq<NodeView>,
    first: nat,
    second: nat,
    name: Seq<char>,
)
    requires
        first < second < nodes.len(),
        defines_constant(nodes[first as int], name),
        defines_constant(nodes[second as int], name),
    ensures
        st.emit_from(arch, nodes, 0) is Err,
        st.emit_node(arch, NodeView::Root(nodes)) is Err,
        (st.emit_from(arch, nodes.take(second as int), 0) matches Ok(mid) && (
        nodes[second as int]->Instruction_1)[1].simplify(mid.scope(arch)).0.integer_argument()
            is Some) ==> st.emit_from(arch, nodes, 0) == Err::<EmitModel, EmitErrorView>(
            EmitErrorView::DuplicateConstant(name),
        ),
{
    let head = nodes.take(second as int);
    lemma_emit_from_splits(arch, st, nodes, 0, second);
    lemma_emit_from_splits(arch, st, head, 0, first);
    lemma_directive_names_differ(nodes[first as int]->Instruction_0);
    lemma_directive_names_differ(nodes[second as int]->Instruction_0);
    if let Ok(mid) = st.emit_from(arch, head, 0) {
        let before = st.emit_from(arch, head.take(first as int), 0)->Ok_0;
        assert(head[first as int] == nodes[first as int]);
        let defined = before.emit_node(arch, head[first as int])->Ok_0;
        assert(defined.constants.contains_key(name));
        lemma_tables_grow_from(arch, defined, head, first + 1);
        assert(defined.constants.dom().contains(name));
        assert(mid.constants.contains_key(name));
        let directive = nodes[second as int]->Instruction_0;
        let args = nodes[second as int]->Instruction_1;
        assert(mid.emit_node(arch, nodes[second as int]) == mid.emit_equ(arch, directive, args));
        assert(mid.emit_equ(arch, directive, args) is Err);
        assert(mid.emit_from(arch, nodes, second) is Err);
    }
    assert(st.emit_node(arch, NodeView::Root(nodes)) is Err) by {
        reveal_with_fuel(EmitModel::emit_node, 2);
    }
}

/// Scope isolation: a global label ends the scope of the local labels. After
/// it no local label is defined, so a name that only a local label of the old
/// scope gave a value has none.
pub proof fn lemma_global_label_ends_scope(
    arch: ArchView,
    st: EmitModel,
    label: Seq<char>,
    name: Seq<char>,
)
    requires
        !is_local_label(label),
        st.emit_label(arch, label) is Ok,
    ensures
        ({
            let scoped = st.emit_label(arch, label)->Ok_0;
            &&& scoped.locals == Map::<Seq<char>, u64>::empty()
            &&& scoped.globals == st.globals.insert(label, st.cursor as u64)
            &&& scoped.constants == st.constants
            &&& (name != label && !st.globals.contains_key(name) && !st.constants.contains_key(name)
                && !arch.consts.contains_key(name)) ==> scoped.resolve(arch, name) is None
        }),
{
    lemma_flush(arch, st);
}

/// Scope isolation, seen from the instruction: an instruction that refers,
/// behind a global label, to a name that no table knows any more is queued,
/// and unless the name is defined anew the sequence cannot end well: it fails
/// with the error that names the node which is still unresolved.
pub proof fn lemma_out_of_scope_reference_fails(
    arch: ArchView,
    st: EmitModel,
    label: Seq<char>,
    mnemonic: Seq<char>,
    args: Seq<NodeView>,
    index: int,
    name: Seq<char>,
)
    requires
        !is_local_label(label),
        st.emit_label(arch, label) is Ok,
        name != label,
        !st.globals.contains_key(name),
        !st.constants.contains_key(name),
        !arch.consts.contains_key(name),
        0 <= index < args.len(),
        args[index] == NodeView::Argument(Box::new(NodeView::Identifier(name))),
        st.emit_label(arch, label)->Ok_0.emit_instruction(arch, mnemonic, args) is Ok,
    ensures
        ({
            let scoped = st.emit_label(arch, label)->Ok_0;
            let queued = scoped.emit_instruction(arch, mnemonic, args)->Ok_0;
            &&& queued.pending.len() == scoped.pending.len() + 1
            &&& queued.finish(arch) is Err
            &&& queued.flush(arch) is Ok ==> queued.finish(arch) matches Err(
                EmitErrorView::UnexpectedNodeType(_),
            )
        }),
{
    let scoped = st.emit_label(arch, label)->Ok_0;
    let queued = scoped.emit_instruction(arch, mnemonic, args)->Ok_0;
    let env = scoped.scope(arch);
    lemma_global_label_ends_scope(arch, st, label, name);
    reveal_with_fuel(NodeView::simplify, 3);
    assert(!env.contains_key(name));
    assert(!args[index].simplify(env).1);
    assert(!NodeView::all_resolved(args, env));
    lemma_instruction_is_aligned(arch, scoped, mnemonic, args);
    lemma_scope_of_equal_tables(queued, scoped, arch);
    let last = queued.pending.len() - 1;
    assert(queued.pending[last].args == args);
    assert(!NodeView::all_resolved(queued.pending[last].args, queued.scope(arch)));
    lemma_finish_is_complete(arch, queued);
}

/// The `.org` round trip: a directive whose argument reduces to an address
/// within the largest image moves the cursor there. The image keeps what it
/// held and is zero from its old end up to the address. An instruction that
/// follows, the address being a multiple of the instruction alignment, starts
/// at the address, and the zero bytes before it stay. An address beyond the
/// largest image, at which no byte can stand, is refused as an argument of
/// the wrong kind.
pub proof fn lemma_org_then_instruction(
    arch: ArchView,
    st: EmitModel,
    directive: Seq<char>,
    target: Seq<NodeView>,
    address: u64,
    mnemonic: Seq<char>,
    args: Seq<NodeView>,
)
    requires
        target.len() == 1,
        target[0].simplify(st.scope(arch)).0.integer_argument() == Some(address),
    ensures
        address > max_image_len() ==> st.emit_org(arch, directive, target) == Err::<
            EmitModel,
            EmitErrorView,
        >(EmitErrorView::InvalidArgumentType(directive, 0)),
        address <= max_image_len() ==> st.emit_org(arch, directive, target) is Ok,
        address <= max_image_len() ==> ({
            let moved = st.emit_org(arch, directive, target)->Ok_0;
            let align = arch.ialign_bytes() as int;
            &&& moved.cursor == address
            &&& moved.image.len() == if st.image.len() < address {
                address as int
            } else {
                st.image.len() as int
            }
            &&& forall|k: int| 0 <= k < st.image.len() ==> #[trigger] moved.image[k] == st.image[k]
            &&& forall|k: int| st.image.len() <= k < address ==> #[trigger] moved.image[k] == 0u8
            &&& moved.pending == st.pending
            &&& moved.globals == st.globals
            &&& moved.locals == st.locals
            &&& moved.constants == st.constants
            &&& (align > 0 && address % (align as u64) == 0 && moved.emit_instruction(
                arch,
                mnemonic,
                args,
            ) is Ok) ==> {
                let next = moved.emit_instruction(arch, mnemonic, args)->Ok_0;
                let def = arch.instructions[mnemonic];
                let length = def.format.ilen_bytes() as int;
                let reduced = NodeView::simplify_all(args, st.scope(arch));
                &&& next.cursor == address + length
                &&& forall|k: int| st.image.len() <= k < address ==> #[trigger] next.image[k] == 0u8
                &&& NodeView::all_resolved(args, st.scope(arch)) ==> next.image.subrange(
                    address as int,
                    address + length,
                ) == def.encode(bound_values(def, reduced))->Ok_0
                &&& !NodeView::all_resolved(args, st.scope(arch)) ==> next.pending
                    == st.pending.push(
                    DeferredView { position: address as usize, name: mnemonic, args },
                )
            }
        }),
{
    if address <= max_image_len() {
        let moved = st.emit_org(arch, directive, target)->Ok_0;
        let align = arch.ialign_bytes() as int;
        lemma_scope_of_equal_tables(moved, st, arch);
        if align > 0 && address % (align as u64) == 0 && moved.emit_instruction(arch, mnemonic, args)
            is Ok {
            lemma_instruction_is_aligned(arch, moved, mnemonic, args);
            assert(align_up(address as int, align) == address);
        }
    }
}

/// The state before anything is emitted is consistent.
pub proof fn lemma_empty_is_consistent(arch: ArchView)
    ensures
        EmitModel::empty().consistent(arch),
{
}

/// An instruction keeps a consistent state consistent.
pub proof fn lemma_instruction_keeps_consistent(
    arch: ArchView,
    st: EmitModel,
    name: Seq<char>,
    args: Seq<NodeView>,
)
    requires
        st.consistent(arch),
        st.emit_instruction(arch, name, args) is Ok,
    ensures
        st.emit_instruction(arch, name, args)->Ok_0.consistent(arch),
{
    let next = st.emit_instruction(arch, name, args)->Ok_0;
    lemma_instruction_is_aligned(arch, st, name, args);
    assert forall|i: int| 0 <= i < next.pending.len() implies next.holds_place(
        arch,
        #[trigger] next.pending[i],
    ) by {
        if i < st.pending.len() {
            assert(st.holds_place(arch, st.pending[i]));
        }
    }
}

/// Retrying an entry that holds its place, once its symbols are known,
/// writes the bytes of the entry and nothing else: the encoding stands at the
/// saved position, the rest of the image and its length are as before.
pub proof fn lemma_retry_fills_placeholder(arch: ArchView, st: EmitModel, entry: DeferredView)
    requires
        st.consistent(arch),
        st.holds_place(arch, entry),
        NodeView::all_resolved(entry.args, st.scope(arch)),
        st.at(entry.position).emit_instruction(
            arch,
            entry.name,
            NodeView::simplify_all(entry.args, st.scope(arch)),
        ) is Ok,
    ensures
        ({
            let reduced = NodeView::simplify_all(entry.args, st.scope(arch));
            let next = st.at(entry.position).emit_instruction(arch, entry.name, reduced)->Ok_0;
            let def = arch.instructions[entry.name];
            let length = def.format.ilen_bytes() as int;
            &&& next.image.len() == st.image.len()
            &&& next.pending == st.pending
            &&& def.encode(bound_values(def, reduced)) is Ok
            &&& next.image.subrange(entry.position as int, entry.position + length) == def.encode(
                bound_values(def, reduced),
            )->Ok_0
            &&& forall|k: int|
                0 <= k < st.image.len() && !(entry.position <= k < entry.position + length)
                    ==> #[trigger] next.image[k] == st.image[k]
            &&& next.at(st.cursor).consistent(arch)
        }),
{
    let reduced = NodeView::simplify_all(entry.args, st.scope(arch));
    let placed = st.at(entry.position);
    lemma_scope_of_equal_tables(placed, st, arch);
    lemma_all_resolved_is_fixed(entry.args, st.scope(arch), st.scope(arch));
    lemma_instruction_is_aligned(arch, placed, entry.name, reduced);
    let next = placed.emit_instruction(arch, entry.name, reduced)->Ok_0;
    assert(align_up(entry.position as int, arch.ialign_bytes() as int) == entry.position);
    assert forall|i: int| 0 <= i < next.pending.len() implies next.at(st.cursor).holds_place(
        arch,
        #[trigger] next.pending[i],
    ) by {
        assert(st.holds_place(arch, st.pending[i]));
    }
}

/// Retrying entries that hold their place keeps a consistent state consistent
/// and the image at its length.
pub proof fn lemma_flush_entries_keeps_consistent(
    arch: ArchView,
    st: EmitModel,
    entries: Seq<DeferredView>,
)
    requires
        st.consistent(arch),
        forall|i: int| 0 <= i < entries.len() ==> st.holds_place(arch, #[trigger] entries[i]),
        st.flush_entries(arch, entries) is Ok,
    ensures
        st.flush_entries(arch, entries)->Ok_0.consistent(arch),
        st.flush_entries(arch, entries)->Ok_0.image.len() == st.image.len(),
    decreases entries.len(),
{
    if entries.len() > 0 {
        let entry = entries[0];
        let rest = entries.drop_first();
        assert(st.holds_place(arch, entry));
        if !NodeView::all_resolved(entry.args, st.scope(arch)) {
            let queued = EmitModel { pending: st.pending.push(entry), ..st };
            assert forall|i: int| 0 <= i < queued.pending.len() implies queued.holds_place(
                arch,
                #[trigger] queued.pending[i],
            ) by {
                if i < st.pending.len() {
                    assert(st.holds_place(arch, st.pending[i]));
                }
            }
            assert forall|i: int| 0 <= i < rest.len() implies queued.holds_place(
                arch,
                #[trigger] rest[i],
            ) by {
                assert(st.holds_place(arch, entries[i + 1]));
            }
            lemma_flush_entries_keeps_consistent(arch, queued, rest);
        } else {
            lemma_retry_fills_placeholder(arch, st, entry);
            let reduced = NodeView::simplify_all(entry.args, st.scope(arch));
            let next = st.at(entry.position).emit_instruction(arch, entry.name, reduced)->Ok_0;
            let back = next.at(st.cursor);
            assert forall|i: int| 0 <= i < rest.len() implies back.holds_place(
                arch,
                #[trigger] rest[i],
            ) by {
                assert(st.holds_place(arch, entries[i + 1]));
            }
            lemma_flush_entries_keeps_consistent(arch, back, rest);
        }
    }
}

/// A flush keeps a consistent state consistent and the image at its length:
/// it writes into placeholders only.
pub proof fn lemma_flush_keeps_consistent(arch: ArchView, st: EmitModel)
    requires
        st.consistent(arch),
        st.flush(arch) is Ok,
    ensures
        st.flush(arch)->Ok_0.consistent(arch),
        st.flush(arch)->Ok_0.image.len() == st.image.len(),
{
    let cleared = EmitModel { pending: Seq::empty(), ..st };
    assert forall|i: int| 0 <= i < st.pending.len() implies cleared.holds_place(
        arch,
        #[trigger] st.pending[i],
    ) by {
        assert(st.holds_place(arch, st.pending[i]));
    }
    lemma_flush_entries_keeps_consistent(arch, cleared, st.pending);
}

/// Every node keeps a consistent state consistent: whatever is emitted, the
/// cursor stays inside the image and each pending instruction holds its
/// place.
pub proof fn lemma_node_keeps_consistent(arch: ArchView, st: EmitModel, node: NodeView)
    requires
        st.consistent(arch),
        st.emit_node(arch, node) is Ok,
    ensures
        st.emit_node(arch, node)->Ok_0.consistent(arch),
    decreases node, 0nat,
{
    match node {
        NodeView::Root(nodes) => {
            lemma_nodes_keep_consistent(arch, st, nodes, 0);
            let emitted = st.emit_from(arch, nodes, 0)->Ok_0;
            lemma_flush_keeps_consistent(arch, emitted);
        },
        NodeView::Label(name) => {
            let next = st.emit_label(arch, name)->Ok_0;
            if is_local_label(name) {
                assert forall|i: int| 0 <= i < next.pending.len() implies next.holds_place(
                    arch,
                    #[trigger] next.pending[i],
                ) by {
                    assert(st.holds_place(arch, st.pending[i]));
                }
            } else {
                lemma_flush_keeps_consistent(arch, st);
                let flushed = st.flush(arch)->Ok_0;
                assert forall|i: int| 0 <= i < next.pending.len() implies next.holds_place(
                    arch,
                    #[trigger] next.pending[i],
                ) by {
                    assert(flushed.holds_place(arch, flushed.pending[i]));
                }
            }
        },
        NodeView::Instruction(name, args) => {
            let next = st.emit_statement(arch, name, args)->Ok_0;
            if is_org(name) || is_equ(name) {
                assert forall|i: int| 0 <= i < next.pending.len() implies next.holds_place(
                    arch,
                    #[trigger] next.pending[i],
                ) by {
                    assert(st.holds_place(arch, st.pending[i]));
                }
            } else {
                lemma_instruction_keeps_consistent(arch, st, name, args);
            }
        },
        _ => {},
    }
}

/// The same of the nodes of a sequence from `from` on.
pub proof fn lemma_nodes_keep_consistent(
    arch: ArchView,
    st: EmitModel,
    nodes: Seq<NodeView>,
    from: nat,
)
    requires
        st.consistent(arch),
        st.emit_from(arch, nodes, from) is Ok,
    ensures
        st.emit_from(arch, nodes, from)->Ok_0.consistent(arch),
    decreases nodes, nodes.len() - from,
{
    if from < nodes.len() {
        lemma_node_keeps_consistent(arch, st, nodes[from as int]);
        let next = st.emit_node(arch, nodes[from as int])->Ok_0;
        lemma_nodes_keep_consistent(arch, next, nodes, from + 1);
    }
}

/// End-of-stream completeness for a whole program: a sequence of nodes that
/// is emitted from the empty state leaves no instruction pending, so every
/// placeholder in the image that is returned has been filled.
pub proof fn lemma_emitted_root_is_complete(arch: ArchView, nodes: Seq<NodeView>)
    requires
        EmitModel::empty().emit_node(arch, NodeView::Root(nodes)) is Ok,
    ensures
        EmitModel::empty().emit_node(arch, NodeView::Root(nodes))->Ok_0.pending.len() == 0,
        EmitModel::empty().emit_node(arch, NodeView::Root(nodes))->Ok_0.consistent(arch),
{
    lemma_node_keeps_consistent(arch, EmitModel::empty(), NodeView::Root(nodes));
}

/// Retrying entries writes into the placeholders of the entries that are
/// retried and nowhere else: a byte that none of them covers is left as it
/// was.
pub proof fn lemma_flush_entries_keeps_other_bytes(
    arch: ArchView,
    st: EmitModel,
    entries: Seq<DeferredView>,
    k: int,
)
    requires
        st.consistent(arch),
        forall|i: int| 0 <= i < entries.len() ==> st.holds_place(arch, #[trigger] entries[i]),
        st.flush_entries(arch, entries) is Ok,
        0 <= k < st.image.len(),
        forall|i: int|
            0 <= i < entries.len() && NodeView::all_resolved(
                (#[trigger] entries[i]).args,
                st.scope(arch),
            ) ==> !EmitModel::covers(arch, entries[i], k),
    ensures
        st.flush_entries(arch, entries)->Ok_0.image[k] == st.image[k],
    decreases entries.len(),
{
    if entries.len() > 0 {
        let entry = entries[0];
        let rest = entries.drop_first();
        assert(st.holds_place(arch, entry));
        if !NodeView::all_resolved(entry.args, st.scope(arch)) {
            let queued = EmitModel { pending: st.pending.push(entry), ..st };
            lemma_scope_of_equal_tables(queued, st, arch);
            assert forall|i: int| 0 <= i < queued.pending.len() implies queued.holds_place(
                arch,
                #[trigger] queued.pending[i],
            ) by {
                if i < st.pending.len() {
                    assert(st.holds_place(arch, st.pending[i]));
                }
            }
            assert forall|i: int| 0 <= i < rest.len() implies queued.holds_place(
                arch,
                #[trigger] rest[i],
            ) by {
                assert(st.holds_place(arch, entries[i + 1]));
            }
            assert forall|i: int|
                0 <= i < rest.len() && NodeView::all_resolved(
                    (#[trigger] rest[i]).args,
                    queued.scope(arch),
                ) implies !EmitModel::covers(arch, rest[i], k) by {
                assert(rest[i] == entries[i + 1]);
            }
            lemma_flush_entries_keeps_other_bytes(arch, queued, rest, k);
        } else {
            lemma_retry_fills_placeholder(arch, st, entry);
            let reduced = NodeView::simplify_all(entry.args, st.scope(arch));
            let next = st.at(entry.position).emit_instruction(arch, entry.name, reduced)->Ok_0;
            let back = next.at(st.cursor);
            lemma_instruction_is_aligned(arch, st.at(entry.position), entry.name, reduced);
            lemma_scope_of_equal_tables(back, st, arch);
            assert(!EmitModel::covers(arch, entry, k));
            assert(back.image[k] == st.image[k]);
            assert forall|i: int| 0 <= i < rest.len() implies back.holds_place(
                arch,
                #[trigger] rest[i],
            ) by {
                assert(st.holds_place(arch, entries[i + 1]));
            }
            assert forall|i: int|
                0 <= i < rest.len() && NodeView::all_resolved(
                    (#[trigger] rest[i]).args,
                    back.scope(arch),
                ) implies !EmitModel::covers(arch, rest[i], k) by {
                assert(rest[i] == entries[i + 1]);
            }
            lemma_flush_entries_keeps_other_bytes(arch, back, rest, k);
        }
    }
}

/// Forward references, in bytes: let an instruction wait anywhere in the
/// queue of a consistent state, let the flush know all its symbols, and let
/// no entry behind it that is retried too lie over its placeholder. After the
/// flush the placeholder holds the encoding of the instruction with its
/// arguments reduced against the symbols of the flush: the bytes that
/// emitting it at its position, these symbols defined before it, writes.
pub proof fn lemma_forward_reference_fills_placeholder(arch: ArchView, st: EmitModel, index: int)
    requires
        st.consistent(arch),
        0 <= index < st.pending.len(),
        NodeView::all_resolved(st.pending[index].args, st.scope(arch)),
        st.flush(arch) is Ok,
        forall|j: int, k: int|
            index < j < st.pending.len() && NodeView::all_resolved(
                (#[trigger] st.pending[j]).args,
                st.scope(arch),
            ) && #[trigger] EmitModel::covers(arch, st.pending[index], k) ==> !EmitModel::covers(
                arch,
                st.pending[j],
                k,
            ),
    ensures
        ({
            let entry = st.pending[index];
            let def = arch.instructions[entry.name];
            let length = def.format.ilen_bytes() as int;
            let reduced = NodeView::simplify_all(entry.args, st.scope(arch));
            &&& def.encode(bound_values(def, reduced)) is Ok
            &&& st.flush(arch)->Ok_0.image.subrange(
                entry.position as int,
                entry.position + length,
            ) == def.encode(bound_values(def, reduced))->Ok_0
            &&& st.at(entry.position).emit_instruction(arch, entry.name, entry.args) matches Ok(
                direct,
            ) && direct.image.subrange(entry.position as int, entry.position + length)
                == def.encode(bound_values(def, reduced))->Ok_0
        }),
{
    let entry = st.pending[index];
    let def = arch.instructions[entry.name];
    let length = def.format.ilen_bytes() as int;
    let env = st.scope(arch);
    let reduced = NodeView::simplify_all(entry.args, env);
    let cleared = EmitModel { pending: Seq::empty(), ..st };
    let head = st.pending.take(index);
    let rest = st.pending.skip(index + 1);
    lemma_scope_of_equal_tables(cleared, st, arch);
    lemma_forward_reference(arch, st, index);
    assert(st.holds_place(arch, entry));
    assert forall|i: int| 0 <= i < head.len() implies cleared.holds_place(
        arch,
        #[trigger] head[i],
    ) by {
        assert(st.holds_place(arch, st.pending[i]));
    }
    let mid = cleared.flush_entries(arch, head)->Ok_0;
    lemma_flush_entries_keeps_consistent(arch, cleared, head);
    lemma_scope_of_equal_tables(mid, st, arch);
    assert(mid.holds_place(arch, entry));
    lemma_retry_is_emission(arch, mid, entry);
    lemma_retry_fills_placeholder(arch, mid, entry);
    let placed = mid.at(entry.position).emit_instruction(arch, entry.name, entry.args)->Ok_0;
    let back = placed.at(mid.cursor);
    lemma_scope_of_equal_tables(back, st, arch);
    assert forall|i: int| 0 <= i < rest.len() implies back.holds_place(arch, #[trigger] rest[i]) by {
        assert(st.holds_place(arch, st.pending[index + 1 + i]));
    }
    let done = st.flush(arch)->Ok_0;
    assert(done == back.flush_entries(arch, rest)->Ok_0);
    lemma_flush_entries_keeps_consistent(arch, back, rest);
    assert forall|k: int| entry.position <= k < entry.position + length implies done.image[k]
        == placed.image[k] by {
        assert(EmitModel::covers(arch, entry, k));
        assert forall|i: int|
            0 <= i < rest.len() && NodeView::all_resolved(
                (#[trigger] rest[i]).args,
                back.scope(arch),
            ) implies !EmitModel::covers(arch, rest[i], k) by {
            assert(rest[i] == st.pending[index + 1 + i]);
        }
        lemma_flush_entries_keeps_other_bytes(arch, back, rest, k);
    }
    assert(done.image.subrange(entry.position as int, entry.position + length)
        =~= placed.image.subrange(entry.position as int, entry.position + length));
    // The same instruction, emitted at its position from the state of the flush.
    lemma_retry_is_emission(arch, st, entry);
    lemma_retry_succeeds_alike(arch, st, mid, entry);
    lemma_retry_fills_placeholder(arch, st, entry);
}

/// Whether an instruction whose symbols are all known can be emitted at a
/// position inside the image depends on the tables and on the length of the
/// image alone.
proof fn lemma_retry_succeeds_alike(
    arch: ArchView,
    st: EmitModel,
    other: EmitModel,
    entry: DeferredView,
)
    requires
        st.globals == other.globals,
        st.locals == other.locals,
        st.constants == other.constants,
        st.holds_place(arch, entry),
        other.holds_place(arch, entry),
        NodeView::all_resolved(entry.args, st.scope(arch)),
        other.at(entry.position).emit_instruction(arch, entry.name, entry.args) is Ok,
    ensures
        st.at(entry.position).emit_instruction(arch, entry.name, entry.args) is Ok,
{
    lemma_scope_of_equal_tables(st, other, arch);
    lemma_scope_of_equal_tables(st.at(entry.position), st, arch);
    lemma_scope_of_equal_tables(other.at(entry.position), other, arch);
}

} // verus!
