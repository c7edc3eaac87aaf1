//! Stable identifiers.
//!
//! An identifier is the concatenation of an entity's qualified path, its name, its
//! kind and its normalized signature. It does not depend on where the entity stands
//! in the source, so it survives edits that leave those four alone.

use vstd::prelude::*;
use crate::entity::{Entity, EntityKind, EntityModel};
use crate::text::{append_bytes, copy_bytes, copy_path, path_model};

verus! {

pub const SPACE: u8 = 0x20;

pub const COLON: u8 = 0x3a;

pub const HASH: u8 = 0x23;

/// ASCII white space: space, tab, line feed, vertical tab, form feed, carriage return.
pub open spec fn is_space(b: u8) -> bool {
    b == 0x20 || (0x09 <= b && b <= 0x0d)
}

/// Bytes of which identifiers and numbers are made: ASCII letters, digits, `_`.
pub open spec fn is_word(b: u8) -> bool {
    (0x61 <= b && b <= 0x7a) || (0x41 <= b && b <= 0x5a) || (0x30 <= b && b <= 0x39) || b == 0x5f
}

pub fn byte_is_space(b: u8) -> (r: bool)
    ensures
        r == is_space(b),
{
    b == 0x20 || (0x09 <= b && b <= 0x0d)
}

pub fn byte_is_word(b: u8) -> (r: bool)
    ensures
        r == is_word(b),
{
    (0x61 <= b && b <= 0x7a) || (0x41 <= b && b <= 0x5a) || (0x30 <= b && b <= 0x39) || b == 0x5f
}

/// The normal form of the first `n` bytes of `raw`: white space is dropped, except
/// that a run of it between two word bytes leaves one space.
pub open spec fn normalized_prefix(raw: Seq<u8>, n: nat) -> Seq<u8>
    decreases n,
{
    if n == 0 {
        Seq::empty()
    } else {
        let before = normalized_prefix(raw, (n - 1) as nat);
        let b = raw[n - 1];
        if is_space(b) {
            before
        } else if n >= 2 && is_space(raw[n - 2]) && before.len() > 0 && is_word(before.last())
            && is_word(b) {
            before.push(SPACE).push(b)
        } else {
            before.push(b)
        }
    }
}

/// The normalized signature.
pub open spec fn normalized(raw: Seq<u8>) -> Seq<u8> {
    normalized_prefix(raw, raw.len())
}

/// Normalizes the white space of a raw signature.
pub fn normalize_signature(raw: &[u8]) -> (out: Vec<u8>)
    ensures
        out@ == normalized(raw@),
{
    let mut out: Vec<u8> = Vec::new();
    let mut i: usize = 0;
    while i < raw.len()
        invariant
            i <= raw.len(),
            out@ == normalized_prefix(raw@, i as nat),
        decreases raw.len() - i,
    {
        let b = raw[i];
        if !byte_is_space(b) {
            if i >= 1 && byte_is_space(raw[i - 1]) && out.len() > 0 && byte_is_word(
                out[out.len() - 1],
            ) && byte_is_word(b) {
                out.push(SPACE);
            }
            out.push(b);
        }
        i = i + 1;
    }
    out
}

/// The word that stands for a kind inside an identifier.
pub open spec fn kind_tag(kind: EntityKind) -> Seq<u8> {
    match kind {
        // "module"
        EntityKind::Module => seq![0x6du8, 0x6f, 0x64, 0x75, 0x6c, 0x65],
        // "type"
        EntityKind::Type => seq![0x74u8, 0x79, 0x70, 0x65],
        // "trait"
        EntityKind::Trait => seq![0x74u8, 0x72, 0x61, 0x69, 0x74],
        // "function"
        EntityKind::Function => seq![0x66u8, 0x75, 0x6e, 0x63, 0x74, 0x69, 0x6f, 0x6e],
        // "impl"
        EntityKind::Implementation => seq![0x69u8, 0x6d, 0x70, 0x6c],
        // "enum"
        EntityKind::Enum => seq![0x65u8, 0x6e, 0x75, 0x6d],
        // "variant"
        EntityKind::EnumVariant => seq![0x76u8, 0x61, 0x72, 0x69, 0x61, 0x6e, 0x74],
        // "field"
        EntityKind::Field => seq![0x66u8, 0x69, 0x65, 0x6c, 0x64],
    }
}

pub fn push_kind_tag(out: &mut Vec<u8>, kind: EntityKind)
    ensures
        final(out)@ == old(out)@ + kind_tag(kind),
{
    match kind {
        EntityKind::Module => {
            out.push(0x6d);
            out.push(0x6f);
            out.push(0x64);
            out.push(0x75);
            out.push(0x6c);
            out.push(0x65);
        },
        EntityKind::Type => {
            out.push(0x74);
            out.push(0x79);
            out.push(0x70);
            out.push(0x65);
        },
        EntityKind::Trait => {
            out.push(0x74);
            out.push(0x72);
            out.push(0x61);
            out.push(0x69);
            out.push(0x74);
        },
        EntityKind::Function => {
            out.push(0x66);
            out.push(0x75);
            out.push(0x6e);
            out.push(0x63);
            out.push(0x74);
            out.push(0x69);
            out.push(0x6f);
            out.push(0x6e);
        },
        EntityKind::Implementation => {
            out.push(0x69);
            out.push(0x6d);
            out.push(0x70);
            out.push(0x6c);
        },
        EntityKind::Enum => {
            out.push(0x65);
            out.push(0x6e);
            out.push(0x75);
            out.push(0x6d);
        },
        EntityKind::EnumVariant => {
            out.push(0x76);
            out.push(0x61);
            out.push(0x72);
            out.push(0x69);
            out.push(0x61);
            out.push(0x6e);
            out.push(0x74);
        },
        EntityKind::Field => {
            out.push(0x66);
            out.push(0x69);
            out.push(0x65);
            out.push(0x6c);
            out.push(0x64);
        },
    }
    assert(out@ =~= old(out)@ + kind_tag(kind));
}

/// The enclosing names, each followed by `::`.
pub open spec fn path_prefix(path: Seq<Seq<u8>>) -> Seq<u8>
    decreases path.len(),
{
    if path.len() == 0 {
        Seq::empty()
    } else {
        path_prefix(path.drop_last()) + path.last() + seq![COLON, COLON]
    }
}

/// What an identifier is made of, up to and including the `#` before the signature.
pub open spec fn identifier_head(path: Seq<Seq<u8>>, name: Seq<u8>, kind: EntityKind) -> Seq<u8> {
    path_prefix(path) + name + seq![HASH] + kind_tag(kind) + seq![HASH]
}

/// The identifier of an entity with the given qualified path, name, kind and
/// normalized signature: `path::name#kind#signature`.
pub open spec fn identifier_of(
    path: Seq<Seq<u8>>,
    name: Seq<u8>,
    kind: EntityKind,
    signature: Seq<u8>,
) -> Seq<u8> {
    identifier_head(path, name, kind) + signature
}

/// The entity `e` with its identifier filled in.
pub open spec fn identified(e: EntityModel) -> EntityModel {
    EntityModel { identifier: identifier_of(e.qualified_path, e.name, e.kind, e.signature), ..e }
}

/// Computes the identifier of one entity.
pub fn identify(entity: &Entity) -> (id: Vec<u8>)
    ensures
        id@ == identified(entity@).identifier,
{
    let mut out: Vec<u8> = Vec::new();
    let mut i: usize = 0;
    while i < entity.qualified_path.len()
        invariant
            i <= entity.qualified_path.len(),
            out@ == path_prefix(path_model(entity.qualified_path@).take(i as int)),
        decreases entity.qualified_path.len() - i,
    {
        let ghost before = out@;
        append_bytes(&mut out, entity.qualified_path[i].as_slice());
        out.push(COLON);
        out.push(COLON);
        proof {
            let path = path_model(entity.qualified_path@);
            assert(path.take(i + 1).drop_last() =~= path.take(i as int));
            assert(path.take(i + 1).last() == entity.qualified_path@[i as int]@);
            assert(out@ =~= before + entity.qualified_path@[i as int]@ + seq![COLON, COLON]);
        }
        i = i + 1;
    }
    proof {
        let path = path_model(entity.qualified_path@);
        assert(path.take(path.len() as int) =~= path);
    }
    append_bytes(&mut out, entity.name.as_slice());
    out.push(HASH);
    push_kind_tag(&mut out, entity.kind);
    out.push(HASH);
    append_bytes(&mut out, entity.signature.as_slice());
    assert(out@ =~= identified(entity@).identifier);
    out
}

/// Gives every entity its identifier. Nothing else about an entity changes, and the
/// identifier is a function of the entity's qualified path, name, kind and signature
/// alone.
pub fn assign(entities: &Vec<Entity>) -> (out: Vec<Entity>)
    ensures
        out.len() == entities.len(),
        forall|i: int| 0 <= i < out.len() ==> (#[trigger] out[i])@ == identified(entities[i]@),
{
    let mut out: Vec<Entity> = Vec::new();
    let mut i: usize = 0;
    while i < entities.len()
        invariant
            i <= entities.len(),
            out.len() == i,
            forall|j: int| 0 <= j < i ==> (#[trigger] out[j])@ == identified(entities[j]@),
        decreases entities.len() - i,
    {
        let e = &entities[i];
        let entity = Entity {
            kind: e.kind,
            name: copy_bytes(e.name.as_slice()),
            qualified_path: copy_path(&e.qualified_path),
            signature: copy_bytes(e.signature.as_slice()),
            span: e.span,
            modifiers: e.modifiers,
            depth: e.depth,
            unresolved_target: e.unresolved_target,
            unresolved_interface: e.unresolved_interface,
            identifier: identify(e),
        };
        out.push(entity);
        i = i + 1;
    }
    out
}

/// Identifiers are deterministic and position-independent: two entities with the
/// same qualified path, name, kind and signature have the same identifier, wherever
/// they stand and whatever their bodies hold.
pub proof fn lemma_identifier_ignores_position(a: EntityModel, b: EntityModel)
    requires
        a.qualified_path == b.qualified_path,
        a.name == b.name,
        a.kind == b.kind,
        a.signature == b.signature,
    ensures
        identified(a).identifier == identified(b).identifier,
{
}

/// The signature is always part of the key: two entities with the same qualified
/// path, name and kind but different signatures have different identifiers.
pub proof fn lemma_signature_distinguishes(a: EntityModel, b: EntityModel)
    requires
        a.qualified_path == b.qualified_path,
        a.name == b.name,
        a.kind == b.kind,
        a.signature != b.signature,
    ensures
        identified(a).identifier != identified(b).identifier,
{
    let head = identifier_head(a.qualified_path, a.name, a.kind);
    let x = head + a.signature;
    let y = head + b.signature;
    if x == y {
        assert(x.subrange(head.len() as int, x.len() as int) =~= a.signature);
        assert(y.subrange(head.len() as int, y.len() as int) =~= b.signature);
    }
}

/// A name that holds neither `#` nor `:`, as every identifier of source text does.
pub open spec fn plain_name(name: Seq<u8>) -> bool {
    forall|i: int| 0 <= i < name.len() ==> name[i] != HASH && name[i] != COLON
}

/// A path of plain names.
pub open spec fn plain_path(path: Seq<Seq<u8>>) -> bool {
    forall|i: int| 0 <= i < path.len() ==> plain_name(#[trigger] path[i])
}

/// `bytes` does not hold `mark`.
pub open spec fn free_of(bytes: Seq<u8>, mark: u8) -> bool {
    forall|i: int| 0 <= i < bytes.len() ==> bytes[i] != mark
}

/// Two texts that are equal and are each cut at their first `mark` have equal parts.
proof fn lemma_cut_at_first(a: Seq<u8>, b: Seq<u8>, c: Seq<u8>, d: Seq<u8>, mark: u8)
    requires
        a + seq![mark] + b == c + seq![mark] + d,
        free_of(a, mark),
        free_of(c, mark),
    ensures
        a == c,
        b == d,
{
    let x = a + seq![mark] + b;
    let y = c + seq![mark] + d;
    if a.len() < c.len() {
        assert(x[a.len() as int] == mark);
        assert(y[a.len() as int] == c[a.len() as int]);
    }
    if c.len() < a.len() {
        assert(y[c.len() as int] == mark);
        assert(x[c.len() as int] == a[c.len() as int]);
    }
    assert(x.subrange(0, a.len() as int) =~= a);
    assert(y.subrange(0, c.len() as int) =~= c);
    assert(x.subrange(a.len() as int + 1, x.len() as int) =~= b);
    assert(y.subrange(c.len() as int + 1, y.len() as int) =~= d);
}

/// Two texts that are equal and are each cut at their last `mark` have equal parts.
proof fn lemma_cut_at_last(a: Seq<u8>, b: Seq<u8>, c: Seq<u8>, d: Seq<u8>, mark: u8)
    requires
        a + seq![mark] + b == c + seq![mark] + d,
        free_of(b, mark),
        free_of(d, mark),
    ensures
        a == c,
        b == d,
{
    let x = a + seq![mark] + b;
    let y = c + seq![mark] + d;
    assert(x.len() == a.len() + 1 + b.len());
    assert(y.len() == c.len() + 1 + d.len());
    if b.len() < d.len() {
        assert(x[a.len() as int] == mark);
        assert(y[a.len() as int] == d[a.len() - c.len() - 1]);
    }
    if d.len() < b.len() {
        assert(y[c.len() as int] == mark);
        assert(x[c.len() as int] == b[c.len() - a.len() - 1]);
    }
    assert(x.subrange(0, a.len() as int) =~= a);
    assert(y.subrange(0, c.len() as int) =~= c);
    assert(x.subrange(a.len() as int + 1, x.len() as int) =~= b);
    assert(y.subrange(c.len() as int + 1, y.len() as int) =~= d);
}

/// No kind's word holds `#`, and different kinds have different words.
proof fn lemma_kind_tags(a: EntityKind, b: EntityKind)
    ensures
        free_of(kind_tag(a), HASH),
        kind_tag(a) == kind_tag(b) ==> a == b,
{
    if kind_tag(a) == kind_tag(b) {
        assert(kind_tag(a).len() == kind_tag(b).len());
        assert(kind_tag(a)[0] == kind_tag(b)[0]);
    }
}

/// The enclosing names of a plain path hold no `#`.
proof fn lemma_prefix_plain(path: Seq<Seq<u8>>)
    requires
        plain_path(path),
    ensures
        free_of(path_prefix(path), HASH),
    decreases path.len(),
{
    if path.len() > 0 {
        assert forall|i: int| 0 <= i < path.drop_last().len() implies plain_name(
            #[trigger] path.drop_last()[i],
        ) by {
            assert(path.drop_last()[i] == path[i]);
        }
        lemma_prefix_plain(path.drop_last());
        assert(plain_name(path[path.len() - 1]));
    }
}

/// A plain path and a plain name can be read back from the path's prefix followed
/// by the name.
proof fn lemma_qualified_name(p: Seq<Seq<u8>>, n: Seq<u8>, q: Seq<Seq<u8>>, m: Seq<u8>)
    requires
        plain_path(p),
        plain_name(n),
        plain_path(q),
        plain_name(m),
        path_prefix(p) + n == path_prefix(q) + m,
    ensures
        p == q,
        n == m,
    decreases p.len(),
{
    let x = path_prefix(p) + n;
    let y = path_prefix(q) + m;
    if p.len() == 0 && q.len() == 0 {
        assert(x =~= n);
        assert(y =~= m);
        assert(p =~= q);
    } else if p.len() == 0 {
        assert(x =~= n);
        let at = path_prefix(q).len() - 1;
        assert(y[at] == COLON);
        assert(n[at] == COLON);
    } else if q.len() == 0 {
        assert(y =~= m);
        let at = path_prefix(p).len() - 1;
        assert(x[at] == COLON);
        assert(m[at] == COLON);
    } else {
        let p0 = path_prefix(p.drop_last()) + p.last();
        let q0 = path_prefix(q.drop_last()) + q.last();
        assert(x =~= (p0 + seq![COLON]) + seq![COLON] + n);
        assert(y =~= (q0 + seq![COLON]) + seq![COLON] + m);
        lemma_cut_at_last(p0 + seq![COLON], n, q0 + seq![COLON], m, COLON);
        assert(p0 + seq![COLON] =~= p0 + seq![COLON] + Seq::<u8>::empty());
        assert(q0 + seq![COLON] =~= q0 + seq![COLON] + Seq::<u8>::empty());
        lemma_cut_at_last(p0, Seq::empty(), q0, Seq::empty(), COLON);
        assert(plain_name(p[p.len() - 1]));
        assert(plain_name(q[q.len() - 1]));
        assert forall|i: int| 0 <= i < p.drop_last().len() implies plain_name(
            #[trigger] p.drop_last()[i],
        ) by {
            assert(p.drop_last()[i] == p[i]);
        }
        assert forall|i: int| 0 <= i < q.drop_last().len() implies plain_name(
            #[trigger] q.drop_last()[i],
        ) by {
            assert(q.drop_last()[i] == q[i]);
        }
        lemma_qualified_name(p.drop_last(), p.last(), q.drop_last(), q.last());
        assert(p =~= p.drop_last().push(p.last()));
        assert(q =~= q.drop_last().push(q.last()));
    }
}

/// Identifiers tell entities apart: two entities whose names and paths are plain
/// have the same identifier only if they have the same qualified path, the same
/// name, the same kind and the same signature.
pub proof fn lemma_identifier_is_a_key(a: EntityModel, b: EntityModel)
    requires
        plain_path(a.qualified_path),
        plain_name(a.name),
        plain_path(b.qualified_path),
        plain_name(b.name),
        identified(a).identifier == identified(b).identifier,
    ensures
        a.qualified_path == b.qualified_path,
        a.name == b.name,
        a.kind == b.kind,
        a.signature == b.signature,
{
    let ha = path_prefix(a.qualified_path) + a.name;
    let hb = path_prefix(b.qualified_path) + b.name;
    let ra = kind_tag(a.kind) + seq![HASH] + a.signature;
    let rb = kind_tag(b.kind) + seq![HASH] + b.signature;
    assert(identified(a).identifier =~= ha + seq![HASH] + ra);
    assert(identified(b).identifier =~= hb + seq![HASH] + rb);
    lemma_prefix_plain(a.qualified_path);
    lemma_prefix_plain(b.qualified_path);
    lemma_cut_at_first(ha, ra, hb, rb, HASH);
    lemma_kind_tags(a.kind, b.kind);
    lemma_kind_tags(b.kind, a.kind);
    lemma_cut_at_first(kind_tag(a.kind), a.signature, kind_tag(b.kind), b.signature, HASH);
    lemma_qualified_name(a.qualified_path, a.name, b.qualified_path, b.name);
}

} // verus!
