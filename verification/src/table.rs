//! The symbol table: the entities and edges of one source unit, frozen. A table is
//! built once and only read afterwards; a new extraction builds a new table.

use vstd::prelude::*;
use crate::entity::{
    Entity, EntityKind, EntityModel, Modifiers, RelationshipEdge, RelationshipKind, entity_models,
};
use crate::identity::{kind_tag, push_kind_tag};
use crate::span::Span;
use crate::text::{append_bytes, bytes_equal};

verus! {

pub const TAB: u8 = 0x09;

pub const LINE_END: u8 = 0x0a;

pub const DASH: u8 = 0x2d;

/// The mathematical model of a symbol table.
pub struct TableModel {
    pub entities: Seq<EntityModel>,
    pub edges: Seq<RelationshipEdge>,
}

/// Every edge joins two of `n` entities.
pub open spec fn edges_in_range(edges: Seq<RelationshipEdge>, n: nat) -> bool {
    forall|k: int| 0 <= k < edges.len() ==> (#[trigger] edges[k]).from < n && edges[k].to < n
}

impl TableModel {
    pub open spec fn wf(self) -> bool {
        edges_in_range(self.edges, self.entities.len())
    }
}

/// The position of the first entity at or after `from` whose identifier is `id`.
pub open spec fn position_of(entities: Seq<EntityModel>, id: Seq<u8>, from: int) -> Option<usize>
    decreases entities.len() - from,
{
    if from < 0 || from >= entities.len() {
        None
    } else if entities[from].identifier == id {
        Some(from as usize)
    } else {
        position_of(entities, id, from + 1)
    }
}

/// The position of the first entity at or after `from` whose span is `span`.
pub open spec fn position_at(entities: Seq<EntityModel>, span: Span, from: int) -> Option<usize>
    decreases entities.len() - from,
{
    if from < 0 || from >= entities.len() {
        None
    } else if entities[from].span == span {
        Some(from as usize)
    } else {
        position_at(entities, span, from + 1)
    }
}

/// The positions, among the first `n`, of the entities of kind `kind` whose span
/// lies inside `range`, in ascending order.
pub open spec fn of_kind_in(entities: Seq<EntityModel>, kind: EntityKind, range: Span, n: nat) -> Seq<
    usize,
>
    decreases n,
{
    if n == 0 {
        Seq::empty()
    } else {
        let before = of_kind_in(entities, kind, range, (n - 1) as nat);
        if entities[n - 1].kind == kind && range.contains(entities[n - 1].span) {
            before.push((n - 1) as usize)
        } else {
            before
        }
    }
}

/// The edges, among the first `n`, that leave an entity whose identifier is `id`.
pub open spec fn edges_leaving(t: TableModel, id: Seq<u8>, n: nat) -> Seq<RelationshipEdge>
    decreases n,
{
    if n == 0 {
        Seq::empty()
    } else {
        let before = edges_leaving(t, id, (n - 1) as nat);
        if t.entities[t.edges[n - 1].from as int].identifier == id {
            before.push(t.edges[n - 1])
        } else {
            before
        }
    }
}

/// The edges, among the first `n`, that reach an entity whose identifier is `id`.
pub open spec fn edges_entering(t: TableModel, id: Seq<u8>, n: nat) -> Seq<RelationshipEdge>
    decreases n,
{
    if n == 0 {
        Seq::empty()
    } else {
        let before = edges_entering(t, id, (n - 1) as nat);
        if t.entities[t.edges[n - 1].to as int].identifier == id {
            before.push(t.edges[n - 1])
        } else {
            before
        }
    }
}

/// The decimal digits of `n`.
pub open spec fn decimal(n: nat) -> Seq<u8>
    decreases n,
{
    if n < 10 {
        seq![(0x30 + n) as u8]
    } else {
        decimal(n / 10).push((0x30 + n % 10) as u8)
    }
}

/// One letter for each modifier that is set, a dash for each that is not:
/// `p`ublic, `a`sync, `m`utable self, `s`tatic.
pub open spec fn modifier_flags(m: Modifiers) -> Seq<u8> {
    seq![
        if m.public {
            0x70u8
        } else {
            DASH
        },
        if m.is_async {
            0x61u8
        } else {
            DASH
        },
        if m.mutable_self {
            0x6du8
        } else {
            DASH
        },
        if m.is_static {
            0x73u8
        } else {
            DASH
        },
    ]
}

/// `t` for an unresolved type and `i` for an unresolved trait, a dash otherwise.
pub open spec fn unresolved_flags(e: EntityModel) -> Seq<u8> {
    seq![
        if e.unresolved_target {
            0x74u8
        } else {
            DASH
        },
        if e.unresolved_interface {
            0x69u8
        } else {
            DASH
        },
    ]
}

/// A field of a record: its bytes and a tab.
pub open spec fn field(bytes: Seq<u8>) -> Seq<u8> {
    bytes + seq![TAB]
}

/// The record of one entity: `E`, identifier, kind, name, span start, span end,
/// depth, modifier flags and unresolved flags, separated by tabs and ended by a
/// line feed.
pub open spec fn entity_record(e: EntityModel) -> Seq<u8> {
    field(seq![0x45u8]) + field(e.identifier) + field(kind_tag(e.kind)) + field(e.name) + field(
        decimal(e.span.start as nat),
    ) + field(decimal(e.span.end as nat)) + field(decimal(e.depth)) + field(
        modifier_flags(e.modifiers),
    ) + unresolved_flags(e) + seq![LINE_END]
}

/// The word that stands for a relationship kind.
pub open spec fn relationship_tag(kind: RelationshipKind) -> Seq<u8> {
    match kind {
        // "implements"
        RelationshipKind::Implements => seq![
            0x69u8,
            0x6d,
            0x70,
            0x6c,
            0x65,
            0x6d,
            0x65,
            0x6e,
            0x74,
            0x73,
        ],
        // "contains"
        RelationshipKind::Contains => seq![0x63u8, 0x6f, 0x6e, 0x74, 0x61, 0x69, 0x6e, 0x73],
        // "method"
        RelationshipKind::DeclaresMethodOf => seq![0x6du8, 0x65, 0x74, 0x68, 0x6f, 0x64],
    }
}

/// The record of one edge: `R`, kind, and the identifiers of the two entities it
/// joins.
pub open spec fn edge_record(t: TableModel, edge: RelationshipEdge) -> Seq<u8> {
    field(seq![0x52u8]) + field(relationship_tag(edge.kind)) + field(
        t.entities[edge.from as int].identifier,
    ) + t.entities[edge.to as int].identifier + seq![LINE_END]
}

pub open spec fn entity_records(t: TableModel, n: nat) -> Seq<u8>
    decreases n,
{
    if n == 0 {
        Seq::empty()
    } else {
        entity_records(t, (n - 1) as nat) + entity_record(t.entities[n - 1])
    }
}

pub open spec fn edge_records(t: TableModel, n: nat) -> Seq<u8>
    decreases n,
{
    if n == 0 {
        Seq::empty()
    } else {
        edge_records(t, (n - 1) as nat) + edge_record(t, t.edges[n - 1])
    }
}

/// The serialized table: one record for each entity, then one for each edge.
pub open spec fn serialized(t: TableModel) -> Seq<u8> {
    entity_records(t, t.entities.len()) + edge_records(t, t.edges.len())
}

fn push_decimal(out: &mut Vec<u8>, n: usize)
    ensures
        final(out)@ == old(out)@ + decimal(n as nat),
    decreases n,
{
    if n < 10 {
        out.push(0x30 + n as u8);
        assert(out@ =~= old(out)@ + decimal(n as nat));
    } else {
        push_decimal(out, n / 10);
        out.push(0x30 + (n % 10) as u8);
        assert(out@ =~= old(out)@ + decimal(n as nat));
    }
}

fn push_relationship_tag(out: &mut Vec<u8>, kind: RelationshipKind)
    ensures
        final(out)@ == old(out)@ + relationship_tag(kind),
{
    match kind {
        RelationshipKind::Implements => {
            out.push(0x69);
            out.push(0x6d);
            out.push(0x70);
            out.push(0x6c);
            out.push(0x65);
            out.push(0x6d);
            out.push(0x65);
            out.push(0x6e);
            out.push(0x74);
            out.push(0x73);
        },
        RelationshipKind::Contains => {
            out.push(0x63);
            out.push(0x6f);
            out.push(0x6e);
            out.push(0x74);
            out.push(0x61);
            out.push(0x69);
            out.push(0x6e);
            out.push(0x73);
        },
        RelationshipKind::DeclaresMethodOf => {
            out.push(0x6d);
            out.push(0x65);
            out.push(0x74);
            out.push(0x68);
            out.push(0x6f);
            out.push(0x64);
        },
    }
    assert(out@ =~= old(out)@ + relationship_tag(kind));
}

fn flag(set: bool, letter: u8) -> (r: u8)
    ensures
        r == (if set {
            letter
        } else {
            DASH
        }),
{
    if set {
        letter
    } else {
        DASH
    }
}

fn push_field(out: &mut Vec<u8>, bytes: &[u8])
    ensures
        final(out)@ == old(out)@ + field(bytes@),
{
    append_bytes(out, bytes);
    out.push(TAB);
    assert(out@ =~= old(out)@ + field(bytes@));
}

fn push_letter_field(out: &mut Vec<u8>, letter: u8)
    ensures
        final(out)@ == old(out)@ + field(seq![letter]),
{
    out.push(letter);
    out.push(TAB);
    assert(out@ =~= old(out)@ + field(seq![letter]));
}

fn push_number_field(out: &mut Vec<u8>, n: usize)
    ensures
        final(out)@ == old(out)@ + field(decimal(n as nat)),
{
    push_decimal(out, n);
    out.push(TAB);
    assert(out@ =~= old(out)@ + field(decimal(n as nat)));
}

fn push_kind_field(out: &mut Vec<u8>, kind: EntityKind)
    ensures
        final(out)@ == old(out)@ + field(kind_tag(kind)),
{
    push_kind_tag(out, kind);
    out.push(TAB);
    assert(out@ =~= old(out)@ + field(kind_tag(kind)));
}

fn push_relationship_field(out: &mut Vec<u8>, kind: RelationshipKind)
    ensures
        final(out)@ == old(out)@ + field(relationship_tag(kind)),
{
    push_relationship_tag(out, kind);
    out.push(TAB);
    assert(out@ =~= old(out)@ + field(relationship_tag(kind)));
}

fn push_modifier_field(out: &mut Vec<u8>, m: Modifiers)
    ensures
        final(out)@ == old(out)@ + field(modifier_flags(m)),
{
    out.push(flag(m.public, 0x70));
    out.push(flag(m.is_async, 0x61));
    out.push(flag(m.mutable_self, 0x6d));
    out.push(flag(m.is_static, 0x73));
    out.push(TAB);
    assert(out@ =~= old(out)@ + field(modifier_flags(m)));
}

fn push_record_end(out: &mut Vec<u8>, e: &Entity)
    ensures
        final(out)@ == old(out)@ + unresolved_flags(e@) + seq![LINE_END],
{
    out.push(flag(e.unresolved_target, 0x74));
    out.push(flag(e.unresolved_interface, 0x69));
    out.push(LINE_END);
    assert(out@ =~= old(out)@ + unresolved_flags(e@) + seq![LINE_END]);
}

fn push_entity_record(out: &mut Vec<u8>, e: &Entity)
    ensures
        final(out)@ == old(out)@ + entity_record(e@),
{
    let ghost start = out@;
    push_letter_field(out, 0x45);
    let ghost r1 = field(seq![0x45u8]);
    push_field(out, e.identifier.as_slice());
    let ghost r2 = r1 + field(e@.identifier);
    assert(out@ =~= start + r2);
    push_kind_field(out, e.kind);
    let ghost r3 = r2 + field(kind_tag(e.kind));
    assert(out@ =~= start + r3);
    push_field(out, e.name.as_slice());
    let ghost r4 = r3 + field(e@.name);
    assert(out@ =~= start + r4);
    push_number_field(out, e.span.start);
    let ghost r5 = r4 + field(decimal(e.span.start as nat));
    assert(out@ =~= start + r5);
    push_number_field(out, e.span.end);
    let ghost r6 = r5 + field(decimal(e.span.end as nat));
    assert(out@ =~= start + r6);
    push_number_field(out, e.depth);
    let ghost r7 = r6 + field(decimal(e.depth as nat));
    assert(out@ =~= start + r7);
    push_modifier_field(out, e.modifiers);
    let ghost r8 = r7 + field(modifier_flags(e.modifiers));
    assert(out@ =~= start + r8);
    push_record_end(out, e);
    assert(out@ =~= start + (r8 + unresolved_flags(e@) + seq![LINE_END]));
}

fn push_edge_record(out: &mut Vec<u8>, kind: RelationshipKind, from: &[u8], to: &[u8])
    ensures
        final(out)@ == old(out)@ + (field(seq![0x52u8]) + field(relationship_tag(kind)) + field(from@)
            + to@ + seq![LINE_END]),
{
    let ghost start = out@;
    push_letter_field(out, 0x52);
    let ghost r1 = field(seq![0x52u8]);
    push_relationship_field(out, kind);
    let ghost r2 = r1 + field(relationship_tag(kind));
    assert(out@ =~= start + r2);
    push_field(out, from);
    let ghost r3 = r2 + field(from@);
    assert(out@ =~= start + r3);
    append_bytes(out, to);
    out.push(LINE_END);
    assert(out@ =~= start + (r3 + to@ + seq![LINE_END]));
}

/// The symbol table of one source unit. Its fields are private: a table is built
/// once by `build` and read through its accessors.
#[derive(Debug)]
pub struct SymbolTable {
    entities: Vec<Entity>,
    edges: Vec<RelationshipEdge>,
}

impl View for SymbolTable {
    type V = TableModel;

    closed spec fn view(&self) -> TableModel {
        TableModel { entities: entity_models(self.entities@), edges: self.edges@ }
    }
}

impl SymbolTable {
    #[verifier::type_invariant]
    spec fn inv(&self) -> bool {
        edges_in_range(self.edges@, self.entities@.len())
    }

    /// Freezes entities and edges into a table. `None` when an edge points outside
    /// the entity list.
    pub fn build(entities: Vec<Entity>, edges: Vec<RelationshipEdge>) -> (r: Option<SymbolTable>)
        ensures
            match r {
                Some(t) => t@ == (TableModel { entities: entity_models(entities@), edges: edges@ })
                    && t@.wf(),
                None => !edges_in_range(edges@, entities@.len()),
            },
    {
        let mut k: usize = 0;
        while k < edges.len()
            invariant
                k <= edges.len(),
                forall|j: int| 0 <= j < k ==> (#[trigger] edges[j]).from < entities.len() && edges[j].to
                    < entities.len(),
            decreases edges.len() - k,
        {
            if edges[k].from >= entities.len() || edges[k].to >= entities.len() {
                return None;
            }
            k = k + 1;
        }
        Some(SymbolTable { entities, edges })
    }

    /// A table holds no more entities than a machine integer counts, and its edges
    /// join entities it holds.
    pub proof fn lemma_bounded(&self)
        ensures
            self@.entities.len() <= usize::MAX,
    {
        assert(self@.entities.len() == self.entities.len());
    }

    /// Number of entities.
    pub fn len(&self) -> (r: usize)
        ensures
            r == self@.entities.len(),
            self@.wf(),
    {
        proof {
            use_type_invariant(self);
        }
        self.entities.len()
    }

    /// The entities, in sweep order.
    pub fn entities(&self) -> (r: &Vec<Entity>)
        ensures
            entity_models(r@) == self@.entities,
    {
        &self.entities
    }

    /// The edges.
    pub fn edges(&self) -> (r: &Vec<RelationshipEdge>)
        ensures
            r@ == self@.edges,
            self@.wf(),
    {
        proof {
            use_type_invariant(self);
        }
        &self.edges
    }

    /// The two entities that edge `k` joins: the one it leaves and the one it
    /// reaches. Their identifiers name the edge's ends.
    pub fn endpoints(&self, k: usize) -> (r: Option<(&Entity, &Entity)>)
        ensures
            match r {
                Some((from, to)) => k < self@.edges.len() && from@ == self@.entities[self@.edges[k as int].from as int]
                    && to@ == self@.entities[self@.edges[k as int].to as int],
                None => k >= self@.edges.len(),
            },
    {
        proof {
            use_type_invariant(self);
        }
        if k < self.edges.len() {
            let edge = self.edges[k];
            Some((&self.entities[edge.from], &self.entities[edge.to]))
        } else {
            None
        }
    }

    /// The position of the first entity with identifier `id`.
    pub fn position(&self, id: &[u8]) -> (r: Option<usize>)
        ensures
            r == position_of(self@.entities, id@, 0),
    {
        let mut i: usize = 0;
        while i < self.entities.len()
            invariant
                i <= self.entities.len(),
                position_of(self@.entities, id@, 0) == position_of(self@.entities, id@, i as int),
            decreases self.entities.len() - i,
        {
            if bytes_equal(self.entities[i].identifier.as_slice(), id) {
                return Some(i);
            }
            i = i + 1;
        }
        None
    }

    /// The first entity with identifier `id`.
    pub fn by_identifier(&self, id: &[u8]) -> (r: Option<&Entity>)
        ensures
            match position_of(self@.entities, id@, 0) {
                Some(i) => r is Some && r->0@ == self@.entities[i as int],
                None => r is None,
            },
    {
        match self.position(id) {
            Some(i) => {
                proof {
                    assert(self@.entities.len() == self.entities.len());
                    lemma_position_found(self@.entities, id@, 0);
                }
                Some(&self.entities[i])
            },
            None => None,
        }
    }

    /// The position of the first entity whose span is exactly `span`.
    pub fn by_span(&self, span: Span) -> (r: Option<usize>)
        ensures
            r == position_at(self@.entities, span, 0),
    {
        let mut i: usize = 0;
        while i < self.entities.len()
            invariant
                i <= self.entities.len(),
                position_at(self@.entities, span, 0) == position_at(self@.entities, span, i as int),
            decreases self.entities.len() - i,
        {
            if self.entities[i].span.same(&span) {
                return Some(i);
            }
            i = i + 1;
        }
        None
    }

    /// The positions of the entities of kind `kind` whose span lies inside `range`.
    pub fn by_kind_in_range(&self, kind: EntityKind, range: Span) -> (r: Vec<usize>)
        ensures
            r@ == of_kind_in(self@.entities, kind, range, self@.entities.len()),
    {
        let mut found: Vec<usize> = Vec::new();
        let mut i: usize = 0;
        while i < self.entities.len()
            invariant
                i <= self.entities.len(),
                found@ == of_kind_in(self@.entities, kind, range, i as nat),
            decreases self.entities.len() - i,
        {
            let e = &self.entities[i];
            if e.kind == kind && range.encloses(&e.span) {
                found.push(i);
            }
            i = i + 1;
        }
        found
    }

    /// The edges that leave an entity with identifier `id`.
    pub fn edges_from(&self, id: &[u8]) -> (r: Vec<RelationshipEdge>)
        ensures
            r@ == edges_leaving(self@, id@, self@.edges.len()),
    {
        proof {
            use_type_invariant(self);
        }
        let mut found: Vec<RelationshipEdge> = Vec::new();
        let mut k: usize = 0;
        while k < self.edges.len()
            invariant
                k <= self.edges.len(),
                edges_in_range(self.edges@, self.entities@.len()),
                found@ == edges_leaving(self@, id@, k as nat),
            decreases self.edges.len() - k,
        {
            let edge = self.edges[k];
            if bytes_equal(self.entities[edge.from].identifier.as_slice(), id) {
                found.push(edge);
            }
            k = k + 1;
        }
        found
    }

    /// The edges that reach an entity with identifier `id`.
    pub fn edges_to(&self, id: &[u8]) -> (r: Vec<RelationshipEdge>)
        ensures
            r@ == edges_entering(self@, id@, self@.edges.len()),
    {
        proof {
            use_type_invariant(self);
        }
        let mut found: Vec<RelationshipEdge> = Vec::new();
        let mut k: usize = 0;
        while k < self.edges.len()
            invariant
                k <= self.edges.len(),
                edges_in_range(self.edges@, self.entities@.len()),
                found@ == edges_entering(self@, id@, k as nat),
            decreases self.edges.len() - k,
        {
            let edge = self.edges[k];
            if bytes_equal(self.entities[edge.to].identifier.as_slice(), id) {
                found.push(edge);
            }
            k = k + 1;
        }
        found
    }

    /// Writes the table out: a record for each entity, then a record for each edge.
    /// Equal tables give equal bytes.
    pub fn serialize(&self) -> (out: Vec<u8>)
        ensures
            out@ == serialized(self@),
    {
        proof {
            use_type_invariant(self);
        }
        let mut out: Vec<u8> = Vec::new();
        let mut i: usize = 0;
        while i < self.entities.len()
            invariant
                i <= self.entities.len(),
                out@ == entity_records(self@, i as nat),
            decreases self.entities.len() - i,
        {
            push_entity_record(&mut out, &self.entities[i]);
            i = i + 1;
        }
        let ghost head = out@;
        let mut k: usize = 0;
        assert(out@ =~= head + edge_records(self@, 0));
        while k < self.edges.len()
            invariant
                k <= self.edges.len(),
                edges_in_range(self.edges@, self.entities@.len()),
                head == entity_records(self@, self@.entities.len()),
                out@ == head + edge_records(self@, k as nat),
            decreases self.edges.len() - k,
        {
            let edge = self.edges[k];
            let ghost before = out@;
            push_edge_record(
                &mut out,
                edge.kind,
                self.entities[edge.from].identifier.as_slice(),
                self.entities[edge.to].identifier.as_slice(),
            );
            assert(out@ =~= before + edge_record(self@, edge));
            assert(out@ =~= head + edge_records(self@, (k + 1) as nat));
            k = k + 1;
        }
        out
    }
}

/// Where `position_of` finds the identifier, the entity there has it.
pub proof fn lemma_position_found(entities: Seq<EntityModel>, id: Seq<u8>, from: int)
    requires
        0 <= from,
        entities.len() <= usize::MAX,
    ensures
        match position_of(entities, id, from) {
            Some(i) => from <= i < entities.len() && entities[i as int].identifier == id,
            None => forall|j: int| from <= j < entities.len() ==> (#[trigger] entities[j]).identifier != id,
        },
    decreases entities.len() - from,
{
    if from < entities.len() && entities[from].identifier != id {
        lemma_position_found(entities, id, from + 1);
    }
}

} // verus!
