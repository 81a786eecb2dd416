use vstd::prelude::*;
use crate::chunk::{
    ByteId, Chunk, ChunkM, chunk_id, chunk_wf, chunks_wf, copy_bytes, lemma_models_push,
    lemma_pre_text_concat, lemma_text_concat, lemma_text_push, lemma_text_single, models_of,
    piece, pre_piece, pre_text_of, pre_visible, text_of, visible,
};
use crate::errors::YTextError;
use crate::ops::{DeleteRecord, InsertRecord};
use crate::store::TextCore;

verus! {

/// Total order on byte identities: peer id first, clock as tie-break. The
/// conflict resolver orders concurrently inserted chunks at one position by
/// this order on their origins — lower peer id closer to the left — so
/// every peer picks the same order.
pub open spec fn id_lt(a: ByteId, b: ByteId) -> bool {
    a.0 < b.0 || (a.0 == b.0 && a.1 < b.1)
}

/// The chunk `c` holds the byte with identity `b`.
pub open spec fn holds_byte(c: ChunkM, b: ByteId) -> bool {
    c.peer == b.0 && c.clock <= b.1 < c.clock + c.content.len()
}

/// Whether the conflict scan passes over `c` when integrating `nc`: `c` is
/// not the chunk `nc` was created directly left of, it claims the same left
/// neighbour as `nc`, and its origin orders before `nc`'s.
pub open spec fn yields_to(c: ChunkM, nc: ChunkM) -> bool {
    &&& Some(chunk_id(c)) != nc.right_origin
    &&& c.left_origin == nc.left_origin
    &&& id_lt(chunk_id(c), chunk_id(nc))
}

/// Links `nc` in at the head of `cs`, first passing over chunks that were
/// concurrently inserted at the same position and order before it.
pub open spec fn place_chunk(cs: Seq<ChunkM>, nc: ChunkM) -> Seq<ChunkM>
    decreases cs.len(),
{
    if cs.len() == 0 {
        seq![nc]
    } else if yields_to(cs[0], nc) {
        seq![cs[0]] + place_chunk(cs.skip(1), nc)
    } else {
        seq![nc] + cs
    }
}

/// The left half of a chunk split after its `cut`-th byte.
pub open spec fn split_left(c: ChunkM, cut: int) -> ChunkM {
    ChunkM { content: c.content.take(cut), ..c }
}

/// The right half of a chunk split after its `cut`-th byte: it keeps every
/// byte's identity and is anchored on the last byte of the left half.
pub open spec fn split_right(c: ChunkM, cut: int) -> ChunkM {
    ChunkM {
        clock: (c.clock + cut) as u64,
        content: c.content.skip(cut),
        left_origin: Some((c.peer, (c.clock + cut - 1) as u64)),
        ..c
    }
}

/// Integrates a remote insert into a chunk sequence: find the chunk holding
/// the left origin byte, split it when that byte is not its last, then
/// place the new chunk after it through the conflict scan. `None` when the
/// left origin byte is not present locally (the transport violated causal
/// delivery).
pub open spec fn integrate_ins(cs: Seq<ChunkM>, nc: ChunkM) -> Option<Seq<ChunkM>>
    decreases cs.len(),
{
    match nc.left_origin {
        None => Some(place_chunk(cs, nc)),
        Some(b) => if cs.len() == 0 {
            None
        } else {
            let c = cs[0];
            if holds_byte(c, b) {
                let cut = b.1 - c.clock + 1;
                if cut == c.content.len() {
                    Some(seq![c] + place_chunk(cs.skip(1), nc))
                } else {
                    Some(
                        seq![split_left(c, cut)] + place_chunk(
                            seq![split_right(c, cut)] + cs.skip(1),
                            nc,
                        ),
                    )
                }
            } else {
                match integrate_ins(cs.skip(1), nc) {
                    None => None,
                    Some(r) => Some(seq![c] + r),
                }
            }
        },
    }
}

/// The chunk model a remote insert record stands for: a fresh, visible
/// chunk carrying the record's origin and anchors.
pub open spec fn insert_model(rec: InsertRecord) -> ChunkM {
    ChunkM {
        peer: rec.peer,
        clock: rec.clock,
        content: rec.content@,
        left_origin: rec.left_origin,
        right_origin: rec.right_origin,
        deleted: false,
        fresh: true,
        newly_deleted: false,
    }
}

/// Whether a chunk holds any byte of the target range of a delete record.
pub open spec fn del_overlaps(c: ChunkM, peer: u64, clock: u64, len: u64) -> bool {
    len > 0 && c.peer == peer && c.clock < clock + len && clock < c.clock + c.content.len()
}

/// What becomes of one chunk under a remote delete of the byte range
/// `[clock, clock + len)` of `peer`: unchanged when it is already a
/// tombstone (deletes are monotone — a repeated delete is a no-op) or does
/// not overlap the range; otherwise it is split at the range boundaries and
/// the covered fragment is tombstoned.
pub open spec fn del_parts(c: ChunkM, peer: u64, clock: u64, len: u64) -> Seq<ChunkM> {
    if c.deleted || !del_overlaps(c, peer, clock, len) {
        seq![c]
    } else {
        let lo = if clock > c.clock {
            clock as int
        } else {
            c.clock as int
        };
        let hi = if clock + len < c.clock + c.content.len() {
            clock as int + len as int
        } else {
            c.clock as int + c.content.len() as int
        };
        let mid = ChunkM {
            clock: lo as u64,
            content: c.content.subrange(lo - c.clock, hi - c.clock),
            left_origin: if lo > c.clock {
                Some((c.peer, (lo - 1) as u64))
            } else {
                c.left_origin
            },
            deleted: true,
            newly_deleted: true,
            ..c
        };
        (if lo > c.clock {
            seq![split_left(c, lo - c.clock)]
        } else {
            Seq::<ChunkM>::empty()
        }) + seq![mid] + (if hi < c.clock + c.content.len() {
            seq![
                ChunkM {
                    clock: hi as u64,
                    content: c.content.skip(hi - c.clock),
                    left_origin: Some((c.peer, (hi - 1) as u64)),
                    ..c
                },
            ]
        } else {
            Seq::<ChunkM>::empty()
        })
    }
}

/// A remote delete applied to a whole chunk sequence, chunk by chunk.
pub open spec fn apply_del(cs: Seq<ChunkM>, peer: u64, clock: u64, len: u64) -> Seq<ChunkM>
    decreases cs.len(),
{
    if cs.len() == 0 {
        cs
    } else {
        del_parts(cs[0], peer, clock, len) + apply_del(cs.skip(1), peer, clock, len)
    }
}

pub proof fn lemma_apply_del_concat(a: Seq<ChunkM>, b: Seq<ChunkM>, peer: u64, clock: u64, len: u64)
    ensures
        apply_del(a + b, peer, clock, len) == apply_del(a, peer, clock, len) + apply_del(
            b,
            peer,
            clock,
            len,
        ),
    decreases a.len(),
{
    if a.len() == 0 {
        assert(a + b =~= b);
        assert(apply_del(a, peer, clock, len) + apply_del(b, peer, clock, len) =~= apply_del(
            b,
            peer,
            clock,
            len,
        ));
    } else {
        assert((a + b).skip(1) =~= a.skip(1) + b);
        assert((a + b)[0] == a[0]);
        lemma_apply_del_concat(a.skip(1), b, peer, clock, len);
        assert(apply_del(a + b, peer, clock, len) =~= apply_del(a, peer, clock, len) + apply_del(
            b,
            peer,
            clock,
            len,
        ));
    }
}

pub proof fn lemma_apply_del_single(c: ChunkM, peer: u64, clock: u64, len: u64)
    ensures
        apply_del(seq![c], peer, clock, len) == del_parts(c, peer, clock, len),
{
    assert(seq![c].skip(1) =~= Seq::<ChunkM>::empty());
    assert(seq![c][0] == c);
    assert(apply_del(Seq::<ChunkM>::empty(), peer, clock, len) == Seq::<ChunkM>::empty());
    assert(apply_del(seq![c], peer, clock, len) == del_parts(c, peer, clock, len) + apply_del(
        seq![c].skip(1),
        peer,
        clock,
        len,
    ));
    assert(apply_del(seq![c], peer, clock, len) =~= del_parts(c, peer, clock, len));
}

/// Re-applying a delete to a chunk's own delete result changes nothing: the
/// fragments outside the range do not overlap it, and the covered fragment
/// is already a tombstone.
pub proof fn lemma_del_parts_fixed(c: ChunkM, peer: u64, clock: u64, len: u64)
    requires
        chunk_wf(c),
    ensures
        apply_del(del_parts(c, peer, clock, len), peer, clock, len) == del_parts(
            c,
            peer,
            clock,
            len,
        ),
{
    let ps = del_parts(c, peer, clock, len);
    if c.deleted || !del_overlaps(c, peer, clock, len) {
        lemma_apply_del_single(c, peer, clock, len);
    } else {
        let lo = if clock > c.clock {
            clock as int
        } else {
            c.clock as int
        };
        let hi = if clock + len < c.clock + c.content.len() {
            clock as int + len as int
        } else {
            c.clock as int + c.content.len() as int
        };
        let left = (if lo > c.clock {
            seq![split_left(c, lo - c.clock)]
        } else {
            Seq::<ChunkM>::empty()
        });
        let midc = ps[left.len() as int];
        let right = ps.skip(left.len() as int + 1);
        assert(ps =~= left + seq![midc] + right);
        lemma_apply_del_concat(left + seq![midc], right, peer, clock, len);
        lemma_apply_del_concat(left, seq![midc], peer, clock, len);
        lemma_apply_del_single(midc, peer, clock, len);
        assert(midc.deleted);
        assert(del_parts(midc, peer, clock, len) == seq![midc]);
        if lo > c.clock {
            let lp = split_left(c, lo - c.clock);
            lemma_apply_del_single(lp, peer, clock, len);
            assert(!del_overlaps(lp, peer, clock, len));
            assert(apply_del(left, peer, clock, len) =~= left);
        } else {
            assert(apply_del(left, peer, clock, len) =~= left);
        }
        if hi < c.clock + c.content.len() {
            let rp = right[0];
            assert(right =~= seq![rp]);
            lemma_apply_del_single(rp, peer, clock, len);
            assert(!del_overlaps(rp, peer, clock, len));
            assert(apply_del(right, peer, clock, len) =~= right);
        } else {
            assert(right =~= Seq::<ChunkM>::empty());
            assert(apply_del(right, peer, clock, len) =~= right);
        }
        assert(apply_del(ps, peer, clock, len) =~= ps);
    }
}

/// Deletes are idempotent: applying the same delete record twice leaves the
/// same chunks as applying it once. Together with the commutativity of
/// concurrent inserts this is what lets peers exchange operations in any
/// order.
pub proof fn lemma_apply_del_idempotent(cs: Seq<ChunkM>, peer: u64, clock: u64, len: u64)
    requires
        chunks_wf(cs),
    ensures
        apply_del(apply_del(cs, peer, clock, len), peer, clock, len) == apply_del(
            cs,
            peer,
            clock,
            len,
        ),
    decreases cs.len(),
{
    if cs.len() > 0 {
        let c = cs[0];
        assert(chunk_wf(c));
        assert(chunks_wf(cs.skip(1))) by {
            assert(forall|i: int|
                0 <= i < cs.skip(1).len() ==> cs.skip(1)[i] == cs[i + 1]);
        }
        lemma_apply_del_concat(
            del_parts(c, peer, clock, len),
            apply_del(cs.skip(1), peer, clock, len),
            peer,
            clock,
            len,
        );
        lemma_del_parts_fixed(c, peer, clock, len);
        lemma_apply_del_idempotent(cs.skip(1), peer, clock, len);
    }
}

/// Structural facts about one chunk's delete result: well-formed, the same
/// pre-transaction contribution, no more visible bytes than before.
pub proof fn lemma_del_parts_props(c: ChunkM, peer: u64, clock: u64, len: u64)
    requires
        chunk_wf(c),
    ensures
        chunks_wf(del_parts(c, peer, clock, len)),
        pre_text_of(del_parts(c, peer, clock, len)) == pre_piece(c),
        text_of(del_parts(c, peer, clock, len)).len() <= piece(c).len(),
{
    let ps = del_parts(c, peer, clock, len);
    if c.deleted || !del_overlaps(c, peer, clock, len) {
        lemma_text_single(c);
        assert(chunks_wf(ps)) by {
            assert(ps[0] == c);
        }
    } else {
        let lo = if clock > c.clock {
            clock as int
        } else {
            c.clock as int
        };
        let hi = if clock + len < c.clock + c.content.len() {
            clock as int + len as int
        } else {
            c.clock as int + c.content.len() as int
        };
        let midc = ChunkM {
            clock: lo as u64,
            content: c.content.subrange(lo - c.clock, hi - c.clock),
            left_origin: if lo > c.clock {
                Some((c.peer, (lo - 1) as u64))
            } else {
                c.left_origin
            },
            deleted: true,
            newly_deleted: true,
            ..c
        };
        let left = (if lo > c.clock {
            seq![split_left(c, lo - c.clock)]
        } else {
            Seq::<ChunkM>::empty()
        });
        let right = (if hi < c.clock + c.content.len() {
            seq![
                ChunkM {
                    clock: hi as u64,
                    content: c.content.skip(hi - c.clock),
                    left_origin: Some((c.peer, (hi - 1) as u64)),
                    ..c
                },
            ]
        } else {
            Seq::<ChunkM>::empty()
        });
        assert(ps =~= left + seq![midc] + right);
        lemma_text_concat(left + seq![midc], right);
        lemma_text_concat(left, seq![midc]);
        lemma_pre_text_concat(left + seq![midc], right);
        lemma_pre_text_concat(left, seq![midc]);
        lemma_text_single(midc);
        assert(!visible(midc));
        assert(pre_visible(midc) == !c.fresh);
        if lo > c.clock {
            assert(left =~= seq![left[0]]);
            lemma_text_single(left[0]);
            assert(text_of(left) == left[0].content);
            assert(pre_text_of(left) == pre_piece(left[0]));
        } else {
            assert(text_of(left) == Seq::<u8>::empty());
            assert(pre_text_of(left) == Seq::<u8>::empty());
        }
        if hi < c.clock + c.content.len() {
            let rp = right[0];
            assert(right =~= seq![rp]);
            lemma_text_single(rp);
        } else {
            assert(right =~= Seq::<ChunkM>::empty());
        }
        if c.fresh {
            assert(pre_text_of(ps) =~= pre_piece(c));
        } else {
            assert(pre_visible(c));
            assert(pre_text_of(ps) =~= pre_piece(c));
        }
        assert(chunk_wf(midc));
        assert forall|i: int| 0 <= i < ps.len() implies chunk_wf(#[trigger] ps[i]) by {
            if i < left.len() {
                assert(ps[i] == left[0]);
                assert(chunk_wf(split_left(c, lo - c.clock)));
            } else if i == left.len() {
                assert(ps[i] == midc);
            } else {
                assert(ps[i] == right[i - left.len() - 1]);
            }
        }
    }
}

/// A remote delete keeps the chunks well formed, never changes the
/// pre-transaction text, and never grows the visible text.
pub proof fn lemma_apply_del_props(cs: Seq<ChunkM>, peer: u64, clock: u64, len: u64)
    requires
        chunks_wf(cs),
    ensures
        chunks_wf(apply_del(cs, peer, clock, len)),
        pre_text_of(apply_del(cs, peer, clock, len)) == pre_text_of(cs),
        text_of(apply_del(cs, peer, clock, len)).len() <= text_of(cs).len(),
    decreases cs.len(),
{
    if cs.len() > 0 {
        let c = cs[0];
        assert(chunk_wf(c));
        assert(chunks_wf(cs.skip(1))) by {
            assert(forall|i: int|
                0 <= i < cs.skip(1).len() ==> cs.skip(1)[i] == cs[i + 1]);
        }
        lemma_del_parts_props(c, peer, clock, len);
        lemma_apply_del_props(cs.skip(1), peer, clock, len);
        let ps = del_parts(c, peer, clock, len);
        let rest = apply_del(cs.skip(1), peer, clock, len);
        lemma_text_concat(ps, rest);
        lemma_pre_text_concat(ps, rest);
        assert(text_of(cs) == piece(c) + text_of(cs.skip(1)));
        assert(pre_text_of(cs) == pre_piece(c) + pre_text_of(cs.skip(1)));
        assert(chunks_wf(ps + rest)) by {
            assert(forall|i: int|
                0 <= i < (ps + rest).len() ==> chunk_wf(#[trigger] (ps + rest)[i]));
        }
    }
}

/// Placement keeps the chunks well formed, adds exactly the new chunk's
/// bytes to the visible text, and leaves the pre-transaction text alone.
pub proof fn lemma_place_props(cs: Seq<ChunkM>, nc: ChunkM)
    requires
        chunks_wf(cs),
        chunk_wf(nc),
        visible(nc),
        nc.fresh,
    ensures
        chunks_wf(place_chunk(cs, nc)),
        text_of(place_chunk(cs, nc)).len() == text_of(cs).len() + nc.content.len(),
        pre_text_of(place_chunk(cs, nc)) == pre_text_of(cs),
    decreases cs.len(),
{
    lemma_text_single(nc);
    if cs.len() == 0 {
        assert(chunks_wf(seq![nc])) by {
            assert(seq![nc][0] == nc);
        }
    } else if yields_to(cs[0], nc) {
        let c = cs[0];
        assert(chunk_wf(c));
        assert(chunks_wf(cs.skip(1))) by {
            assert(forall|i: int| 0 <= i < cs.skip(1).len() ==> cs.skip(1)[i] == cs[i + 1]);
        }
        lemma_place_props(cs.skip(1), nc);
        let r = place_chunk(cs, nc);
        let rest = place_chunk(cs.skip(1), nc);
        lemma_text_concat(seq![c], rest);
        lemma_pre_text_concat(seq![c], rest);
        lemma_text_single(c);
        assert(text_of(cs) == piece(c) + text_of(cs.skip(1)));
        assert(pre_text_of(cs) == pre_piece(c) + pre_text_of(cs.skip(1)));
        assert(pre_text_of(r) =~= pre_text_of(cs));
        assert(chunks_wf(r)) by {
            assert(forall|i: int|
                1 <= i < r.len() ==> r[i] == rest[i - 1]);
            assert(r[0] == c);
        }
    } else {
        lemma_text_concat(seq![nc], cs);
        lemma_pre_text_concat(seq![nc], cs);
        let r = place_chunk(cs, nc);
        assert(pre_text_of(r) =~= pre_text_of(cs));
        assert(chunks_wf(r)) by {
            assert(forall|i: int| 1 <= i < r.len() ==> r[i] == cs[i - 1]);
            assert(r[0] == nc);
        }
    }
}

/// Integration keeps the chunks well formed, adds exactly the new chunk's
/// bytes to the visible text, and leaves the pre-transaction text alone.
pub proof fn lemma_integrate_props(cs: Seq<ChunkM>, nc: ChunkM)
    requires
        chunks_wf(cs),
        chunk_wf(nc),
        visible(nc),
        nc.fresh,
    ensures
        match integrate_ins(cs, nc) {
            Some(r) => {
                &&& chunks_wf(r)
                &&& text_of(r).len() == text_of(cs).len() + nc.content.len()
                &&& pre_text_of(r) == pre_text_of(cs)
            },
            None => true,
        },
    decreases cs.len(),
{
    match nc.left_origin {
        None => {
            lemma_place_props(cs, nc);
        },
        Some(b) => {
            if cs.len() == 0 {
            } else {
                let c = cs[0];
                assert(chunk_wf(c));
                assert(chunks_wf(cs.skip(1))) by {
                    assert(forall|i: int|
                        0 <= i < cs.skip(1).len() ==> cs.skip(1)[i] == cs[i + 1]);
                }
                lemma_text_single(c);
                assert(text_of(cs) == piece(c) + text_of(cs.skip(1)));
                assert(pre_text_of(cs) == pre_piece(c) + pre_text_of(cs.skip(1)));
                if holds_byte(c, b) {
                    let cut = b.1 - c.clock + 1;
                    if cut == c.content.len() {
                        lemma_place_props(cs.skip(1), nc);
                        let rest = place_chunk(cs.skip(1), nc);
                        lemma_text_concat(seq![c], rest);
                        lemma_pre_text_concat(seq![c], rest);
                        let r = seq![c] + rest;
                        assert(pre_text_of(r) =~= pre_text_of(cs));
                        assert(chunks_wf(r)) by {
                            assert(forall|i: int| 1 <= i < r.len() ==> r[i] == rest[i - 1]);
                            assert(r[0] == c);
                        }
                    } else {
                        let lp = split_left(c, cut);
                        let rp = split_right(c, cut);
                        assert(chunk_wf(lp));
                        assert(chunk_wf(rp));
                        let pl = seq![rp] + cs.skip(1);
                        assert(chunks_wf(pl)) by {
                            assert(forall|i: int|
                                1 <= i < pl.len() ==> pl[i] == cs.skip(1)[i - 1]);
                            assert(pl[0] == rp);
                        }
                        lemma_place_props(pl, nc);
                        lemma_text_concat(seq![rp], cs.skip(1));
                        lemma_pre_text_concat(seq![rp], cs.skip(1));
                        lemma_text_single(rp);
                        lemma_text_single(lp);
                        assert(piece(lp) + piece(rp) =~= piece(c));
                        assert(pre_piece(lp) + pre_piece(rp) =~= pre_piece(c));
                        let placed = place_chunk(pl, nc);
                        lemma_text_concat(seq![lp], placed);
                        lemma_pre_text_concat(seq![lp], placed);
                        let r = seq![lp] + placed;
                        assert(text_of(r).len() == piece(lp).len() + text_of(pl).len()
                            + nc.content.len());
                        assert(text_of(pl) == piece(rp) + text_of(cs.skip(1)));
                        assert(pre_text_of(r) =~= pre_text_of(cs));
                        assert(chunks_wf(r)) by {
                            assert(forall|i: int| 1 <= i < r.len() ==> r[i] == placed[i - 1]);
                            assert(r[0] == lp);
                        }
                    }
                } else {
                    lemma_integrate_props(cs.skip(1), nc);
                    match integrate_ins(cs.skip(1), nc) {
                        None => {},
                        Some(rr) => {
                            lemma_text_concat(seq![c], rr);
                            lemma_pre_text_concat(seq![c], rr);
                            let r = seq![c] + rr;
                            assert(pre_text_of(r) =~= pre_text_of(cs));
                            assert(chunks_wf(r)) by {
                                assert(forall|i: int|
                                    1 <= i < r.len() ==> r[i] == rr[i - 1]);
                                assert(r[0] == c);
                            }
                        },
                    }
                }
            }
        },
    }
}

/// Convergence of concurrent inserts at one position: two chunks claiming
/// the same left neighbour (and created at the end of the text, with no
/// right neighbour) can be placed in either order, and both orders produce
/// the same chunk sequence — so peers that received both operations agree,
/// whichever arrived first. The conflict resolver's `(peer, clock)` order
/// decides which chunk ends up closer to the left boundary.
pub proof fn lemma_place_commutes(cs: Seq<ChunkM>, n1: ChunkM, n2: ChunkM)
    requires
        n1.left_origin == n2.left_origin,
        n1.right_origin == None::<ByteId>,
        n2.right_origin == None::<ByteId>,
        chunk_id(n1) != chunk_id(n2),
        forall|i: int| 0 <= i < cs.len() ==> chunk_id(#[trigger] cs[i]) != chunk_id(n1)
            && chunk_id(cs[i]) != chunk_id(n2),
    ensures
        place_chunk(place_chunk(cs, n1), n2) == place_chunk(place_chunk(cs, n2), n1),
    decreases cs.len(),
{
    if cs.len() == 0 {
        let e = Seq::<ChunkM>::empty();
        assert(place_chunk(cs, n1) == seq![n1]);
        assert(place_chunk(cs, n2) == seq![n2]);
        assert(seq![n1].skip(1) =~= e);
        assert(seq![n2].skip(1) =~= e);
        assert(place_chunk(e, n1) == seq![n1]);
        assert(place_chunk(e, n2) == seq![n2]);
        if id_lt(chunk_id(n1), chunk_id(n2)) {
            assert(yields_to(n1, n2));
            assert(!yields_to(n2, n1));
            assert(place_chunk(seq![n1], n2) == seq![n1] + place_chunk(seq![n1].skip(1), n2));
            assert(place_chunk(seq![n1].skip(1), n2) == seq![n2]);
            assert(place_chunk(seq![n2], n1) == seq![n1] + seq![n2]);
            assert(seq![n1] + place_chunk(seq![n1].skip(1), n2) =~= seq![n1] + seq![n2]);
            assert(place_chunk(place_chunk(cs, n1), n2) =~= place_chunk(
                place_chunk(cs, n2),
                n1,
            ));
        } else {
            assert(id_lt(chunk_id(n2), chunk_id(n1)));
            assert(yields_to(n2, n1));
            assert(!yields_to(n1, n2));
            assert(place_chunk(seq![n2], n1) == seq![n2] + place_chunk(seq![n2].skip(1), n1));
            assert(place_chunk(seq![n2].skip(1), n1) == seq![n1]);
            assert(place_chunk(seq![n1], n2) == seq![n2] + seq![n1]);
            assert(seq![n2] + place_chunk(seq![n2].skip(1), n1) =~= seq![n2] + seq![n1]);
            assert(place_chunk(place_chunk(cs, n1), n2) =~= place_chunk(
                place_chunk(cs, n2),
                n1,
            ));
        }
    } else {
        let c = cs[0];
        assert(chunk_id(c) != chunk_id(n1) && chunk_id(c) != chunk_id(n2));
        assert(forall|i: int|
            0 <= i < cs.skip(1).len() ==> cs.skip(1)[i] == cs[i + 1]);
        let y1 = yields_to(c, n1);
        let y2 = yields_to(c, n2);
        if y1 && y2 {
            lemma_place_commutes(cs.skip(1), n1, n2);
            let a1 = place_chunk(cs, n1);
            assert(a1 == seq![c] + place_chunk(cs.skip(1), n1));
            assert(a1[0] == c);
            assert(a1.skip(1) =~= place_chunk(cs.skip(1), n1));
            let a2 = place_chunk(cs, n2);
            assert(a2[0] == c);
            assert(a2.skip(1) =~= place_chunk(cs.skip(1), n2));
            assert(place_chunk(a1, n2) =~= seq![c] + place_chunk(place_chunk(cs.skip(1), n1), n2));
            assert(place_chunk(a2, n1) =~= seq![c] + place_chunk(place_chunk(cs.skip(1), n2), n1));
            assert(place_chunk(place_chunk(cs, n1), n2) =~= place_chunk(
                place_chunk(cs, n2),
                n1,
            ));
        } else if y1 && !y2 {
            // `c` orders before `n1` but not before `n2`, so `n2` orders
            // before `c` and hence before `n1` as well.
            assert(c.left_origin == n1.left_origin);
            assert(id_lt(chunk_id(n2), chunk_id(c)));
            assert(id_lt(chunk_id(n2), chunk_id(n1)));
            let a1 = place_chunk(cs, n1);
            assert(a1 == seq![c] + place_chunk(cs.skip(1), n1));
            assert(a1[0] == c);
            assert(!yields_to(c, n2));
            assert(place_chunk(a1, n2) == seq![n2] + a1);
            let a2 = place_chunk(cs, n2);
            assert(a2 == seq![n2] + cs);
            assert(a2[0] == n2);
            assert(yields_to(n2, n1));
            assert(a2.skip(1) =~= cs);
            assert(place_chunk(a2, n1) == seq![n2] + place_chunk(cs, n1));
            assert(place_chunk(place_chunk(cs, n1), n2) =~= place_chunk(
                place_chunk(cs, n2),
                n1,
            ));
        } else if !y1 && y2 {
            assert(c.left_origin == n2.left_origin);
            assert(id_lt(chunk_id(n1), chunk_id(c)));
            assert(id_lt(chunk_id(n1), chunk_id(n2)));
            let a2 = place_chunk(cs, n2);
            assert(a2 == seq![c] + place_chunk(cs.skip(1), n2));
            assert(a2[0] == c);
            assert(!yields_to(c, n1));
            assert(place_chunk(a2, n1) == seq![n1] + a2);
            let a1 = place_chunk(cs, n1);
            assert(a1 == seq![n1] + cs);
            assert(a1[0] == n1);
            assert(yields_to(n1, n2));
            assert(a1.skip(1) =~= cs);
            assert(place_chunk(a1, n2) == seq![n1] + place_chunk(cs, n2));
            assert(place_chunk(place_chunk(cs, n1), n2) =~= place_chunk(
                place_chunk(cs, n2),
                n1,
            ));
        } else {
            let a1 = place_chunk(cs, n1);
            assert(a1 == seq![n1] + cs);
            assert(a1[0] == n1);
            assert(a1.skip(1) =~= cs);
            let a2 = place_chunk(cs, n2);
            assert(a2 == seq![n2] + cs);
            assert(a2[0] == n2);
            assert(a2.skip(1) =~= cs);
            if id_lt(chunk_id(n1), chunk_id(n2)) {
                assert(yields_to(n1, n2));
                assert(place_chunk(a1, n2) == seq![n1] + place_chunk(cs, n2));
                assert(!yields_to(n2, n1));
                assert(place_chunk(a2, n1) == seq![n1] + a2);
                assert(place_chunk(place_chunk(cs, n1), n2) =~= place_chunk(
                    place_chunk(cs, n2),
                    n1,
                ));
            } else {
                assert(id_lt(chunk_id(n2), chunk_id(n1)));
                assert(yields_to(n2, n1));
                assert(place_chunk(a2, n1) == seq![n2] + place_chunk(cs, n1));
                assert(!yields_to(n1, n2));
                assert(place_chunk(a1, n2) == seq![n2] + a1);
                assert(place_chunk(place_chunk(cs, n1), n2) =~= place_chunk(
                    place_chunk(cs, n2),
                    n1,
                ));
            }
        }
    }
}

/// The convergence law at the level of remote-insert integration: for two
/// concurrent inserts at the start of the document the integration order
/// does not matter.
pub proof fn lemma_root_inserts_commute(cs: Seq<ChunkM>, n1: ChunkM, n2: ChunkM)
    requires
        n1.left_origin == None::<ByteId>,
        n1.right_origin == None::<ByteId>,
        n2.left_origin == None::<ByteId>,
        n2.right_origin == None::<ByteId>,
        chunk_id(n1) != chunk_id(n2),
        forall|i: int| 0 <= i < cs.len() ==> chunk_id(#[trigger] cs[i]) != chunk_id(n1)
            && chunk_id(cs[i]) != chunk_id(n2),
    ensures
        integrate_ins(cs, n1) == Some(place_chunk(cs, n1)),
        integrate_ins(cs, n2) == Some(place_chunk(cs, n2)),
        integrate_ins(place_chunk(cs, n1), n2) == integrate_ins(place_chunk(cs, n2), n1),
        integrate_ins(place_chunk(cs, n1), n2) == Some(
            place_chunk(place_chunk(cs, n1), n2),
        ),
{
    lemma_place_commutes(cs, n1, n2);
}

/// The executable conflict test: whether the scan passes over `c` when
/// integrating the chunk of `rec`.
fn chunk_yields(c: &Chunk, rec: &InsertRecord) -> (b: bool)
    ensures
        b == yields_to(c@, insert_model(*rec)),
{
    (match rec.right_origin {
        Some((rp_, rk)) => !(c.peer == rp_ && c.clock == rk),
        None => true,
    }) && (match (c.left_origin, rec.left_origin) {
        (None, None) => true,
        (Some(x), Some(y)) => x.0 == y.0 && x.1 == y.1,
        _ => false,
    }) && (c.peer < rec.peer || (c.peer == rec.peer && c.clock < rec.clock))
}

impl TextCore {
    /// Recomputes the visible byte length from the live chunks.
    fn recount(&self) -> (r: u32)
        requires
            chunks_wf(self.ms()),
            self.text().len() <= u32::MAX,
        ensures
            r == self.text().len(),
    {
        let mut r: u32 = 0;
        let mut i: usize = 0;
        let n = self.chunks.len();
        while i < n
            invariant
                i <= n,
                n == self.chunks.len(),
                chunks_wf(self.ms()),
                self.text().len() <= u32::MAX,
                r == text_of(self.ms().take(i as int)).len(),
            decreases n - i,
        {
            proof {
                assert(self.ms().take(i as int).push(self.ms()[i as int]) =~= self.ms().take(
                    i as int + 1,
                ));
                lemma_text_push(self.ms().take(i as int), self.ms()[i as int]);
                crate::chunk::lemma_text_split(self.ms(), i as int + 1);
            }
            if !self.chunks[i].deleted {
                r = r + self.chunks[i].content.len() as u32;
            }
            i = i + 1;
        }
        proof {
            assert(self.ms().take(n as int) =~= self.ms());
        }
        r
    }

    /// Replays a remote delete: tombstones every byte of the target range
    /// that is present and still visible, splitting chunks at the range
    /// boundaries. Deletes are monotone, so bytes already tombstoned are
    /// untouched and re-delivery of the same record is a no-op.
    #[verifier::rlimit(100)]
    #[verifier::spinoff_prover]
    pub fn apply_delete(&mut self, rec: &DeleteRecord)
        requires
            old(self).inv(),
            rec.clock + rec.len <= u64::MAX,
        ensures
            final(self).inv(),
            final(self).same_admin(old(self)),
            final(self).clock == old(self).clock,
            final(self).ms() == apply_del(old(self).ms(), rec.peer, rec.clock, rec.len),
            final(self).pre_text() == old(self).pre_text(),
            final(self).text().len() <= old(self).text().len(),
    {
        let ghost ms0 = self.ms();
        let n = self.chunks.len();
        let mut out: Vec<Chunk> = Vec::new();
        let mut i: usize = 0;
        while i < n
            invariant
                i <= n,
                n == self.chunks.len(),
                old(self) == self,
                old(self).inv(),
                rec.clock + rec.len <= u64::MAX,
                ms0 == self.ms(),
                models_of(out@) == apply_del(ms0.take(i as int), rec.peer, rec.clock, rec.len),
            decreases n - i,
        {
            let ghost cm = ms0[i as int];
            proof {
                assert(chunk_wf(cm));
                assert(ms0.take(i as int).push(cm) =~= ms0.take(i as int + 1));
                assert(ms0.take(i as int + 1) =~= ms0.take(i as int) + seq![cm]);
                lemma_apply_del_concat(ms0.take(i as int), seq![cm], rec.peer, rec.clock, rec.len);
                lemma_apply_del_single(cm, rec.peer, rec.clock, rec.len);
            }
            let c = self.chunks[i].dup();
            let c_len: usize = c.content.len();
            let hit = !c.deleted && rec.len > 0 && c.peer == rec.peer && c.clock < rec.clock
                + rec.len && rec.clock < c.clock + c_len as u64;
            if !hit {
                proof {
                    lemma_models_push(out@, c);
                    assert(del_parts(cm, rec.peer, rec.clock, rec.len) == seq![cm]);
                    assert(models_of(out@).push(cm) =~= apply_del(
                        ms0.take(i as int + 1),
                        rec.peer,
                        rec.clock,
                        rec.len,
                    ));
                }
                out.push(c);
            } else {
                let lo: u64 = if rec.clock > c.clock {
                    rec.clock
                } else {
                    c.clock
                };
                let hi: u64 = if rec.clock + rec.len < c.clock + c_len as u64 {
                    rec.clock + rec.len
                } else {
                    c.clock + c_len as u64
                };
                let a: usize = (lo - c.clock) as usize;
                let b2: usize = (hi - c.clock) as usize;
                if a > 0 {
                    let left_part = Chunk {
                        peer: c.peer,
                        clock: c.clock,
                        content: copy_bytes(&c.content, 0, a),
                        left_origin: c.left_origin,
                        right_origin: c.right_origin,
                        deleted: c.deleted,
                        fresh: c.fresh,
                        newly_deleted: c.newly_deleted,
                    };
                    proof {
                        lemma_models_push(out@, left_part);
                    }
                    out.push(left_part);
                }
                let mid = Chunk {
                    peer: c.peer,
                    clock: lo,
                    content: copy_bytes(&c.content, a, b2),
                    left_origin: if a > 0 {
                        Some((c.peer, lo - 1))
                    } else {
                        c.left_origin
                    },
                    right_origin: c.right_origin,
                    deleted: true,
                    fresh: c.fresh,
                    newly_deleted: true,
                };
                proof {
                    lemma_models_push(out@, mid);
                }
                out.push(mid);
                if b2 < c_len {
                    let right_part = Chunk {
                        peer: c.peer,
                        clock: hi,
                        content: copy_bytes(&c.content, b2, c_len),
                        left_origin: Some((c.peer, hi - 1)),
                        right_origin: c.right_origin,
                        deleted: c.deleted,
                        fresh: c.fresh,
                        newly_deleted: c.newly_deleted,
                    };
                    proof {
                        lemma_models_push(out@, right_part);
                    }
                    out.push(right_part);
                }
                proof {
                    assert(models_of(out@) =~= apply_del(
                        ms0.take(i as int),
                        rec.peer,
                        rec.clock,
                        rec.len,
                    ) + del_parts(cm, rec.peer, rec.clock, rec.len));
                }
            }
            i = i + 1;
        }
        proof {
            assert(ms0.take(n as int) =~= ms0);
            lemma_apply_del_props(ms0, rec.peer, rec.clock, rec.len);
        }
        self.chunks = out;
        let vl = self.recount();
        self.visible_len = vl;
    }

    /// Replays a remote insert through the conflict resolver: the chunk is
    /// linked in after the chunk holding its left origin byte (splitting it
    /// when the byte is not its last), past any chunks that were inserted
    /// there concurrently and order before it. Fails with `Merge` — and
    /// changes nothing — when the left origin byte is absent, which means
    /// the transport violated causal delivery.
    #[verifier::rlimit(100)]
    #[verifier::spinoff_prover]
    pub fn apply_insert(&mut self, rec: &InsertRecord) -> (r: Result<(), YTextError>)
        requires
            old(self).inv(),
            rec.content@.len() > 0,
            old(self).text().len() + rec.content@.len() <= u32::MAX,
            rec.clock + rec.content@.len() <= u64::MAX,
        ensures
            final(self).inv(),
            final(self).same_admin(old(self)),
            final(self).clock == old(self).clock,
            match r {
                Ok(()) => {
                    &&& integrate_ins(old(self).ms(), insert_model(*rec)) == Some(
                        final(self).ms(),
                    )
                    &&& final(self).text().len() == old(self).text().len()
                        + rec.content@.len()
                    &&& final(self).pre_text() == old(self).pre_text()
                },
                Err(e) => {
                    &&& e == YTextError::Merge
                    &&& integrate_ins(old(self).ms(), insert_model(*rec)) is None
                    &&& *final(self) == *old(self)
                },
            },
    {
        let ghost ms0 = self.ms();
        let ghost ncm = insert_model(*rec);
        let n = self.chunks.len();
        let mut start: usize = 0;
        if let Some((ap, ak)) = rec.left_origin {
            // Find the chunk holding the left origin byte.
            let mut i: usize = 0;
            while i < n && !(self.chunks[i].peer == ap && self.chunks[i].clock <= ak && ak
                - self.chunks[i].clock < self.chunks[i].content.len() as u64)
                invariant
                    i <= n,
                    n == self.chunks.len(),
                    old(self) == self,
                    old(self).inv(),
                    ms0 == self.ms(),
                    rec.left_origin == Some((ap, ak)),
                    forall|k: int| 0 <= k < i as int ==> !holds_byte(#[trigger] ms0[k], (ap, ak)),
                decreases n - i,
            {
                i = i + 1;
            }
            if i == n {
                proof {
                    lemma_integrate_unfold(ms0, n as int, ncm);
                    assert(ms0.skip(n as int) =~= Seq::<ChunkM>::empty());
                    assert(integrate_ins(ms0.skip(n as int), ncm) is None);
                }
                return Err(YTextError::Merge);
            }
            proof {
                assert(holds_byte(ms0[i as int], (ap, ak)));
                lemma_integrate_unfold(ms0, i as int, ncm);
            }
            let c_clock = self.chunks[i].clock;
            let c_len = self.chunks[i].content.len();
            let cut: usize = (ak - c_clock + 1) as usize;
            if cut < c_len {
                let ghost cm = ms0[i as int];
                let c = self.chunks[i].dup();
                let lp = Chunk {
                    peer: c.peer,
                    clock: c.clock,
                    content: copy_bytes(&c.content, 0, cut),
                    left_origin: c.left_origin,
                    right_origin: c.right_origin,
                    deleted: c.deleted,
                    fresh: c.fresh,
                    newly_deleted: c.newly_deleted,
                };
                let rp = Chunk {
                    peer: c.peer,
                    clock: c.clock + cut as u64,
                    content: copy_bytes(&c.content, cut, c_len),
                    left_origin: Some((c.peer, ak)),
                    right_origin: c.right_origin,
                    deleted: c.deleted,
                    fresh: c.fresh,
                    newly_deleted: c.newly_deleted,
                };
                self.chunks.remove(i);
                self.chunks.insert(i, lp);
                self.chunks.insert(i + 1, rp);
                proof {
                    assert(lp@ =~= split_left(cm, cut as int));
                    assert(rp@ =~= split_right(cm, cut as int));
                    assert(models_of(self.chunks@) =~= ms0.take(i as int) + seq![
                        split_left(cm, cut as int),
                        split_right(cm, cut as int),
                    ] + ms0.skip(i as int + 1));
                }
            }
            start = i + 1;
        }
        let ghost msw = models_of(self.chunks@);
        proof {
            // Whatever phase one did, the integration result is the working
            // sequence up to `start` followed by the placement of the new
            // chunk into the rest.
            assert(integrate_ins(ms0, ncm) == Some(
                msw.take(start as int) + place_chunk(msw.skip(start as int), ncm),
            )) by {
            if rec.left_origin is Some {
                let i = start - 1;
                let b = rec.left_origin.unwrap();
                let cm = ms0[i as int];
                let cut = b.1 - cm.clock + 1;
                assert(ms0.skip(i as int)[0] == cm);
                assert(holds_byte(cm, b));
                if cut == cm.content.len() {
                    assert(msw == ms0);
                    assert(integrate_ins(ms0.skip(i as int), ncm) == Some(
                        seq![cm] + place_chunk(ms0.skip(i as int).skip(1), ncm),
                    ));
                    assert(ms0.skip(i as int).skip(1) =~= ms0.skip(i as int + 1));
                    assert(msw.skip(start as int) =~= ms0.skip(i as int + 1));
                    assert(ms0.take(i as int) + (seq![cm] + place_chunk(
                        msw.skip(start as int),
                        ncm,
                    )) =~= msw.take(start as int) + place_chunk(msw.skip(start as int), ncm));
                    assert(integrate_ins(ms0, ncm) == Some(
                        msw.take(start as int) + place_chunk(msw.skip(start as int), ncm),
                    ));
                } else {
                    assert(ms0.skip(i as int).skip(1) =~= ms0.skip(start as int));
                    assert(integrate_ins(ms0.skip(i as int), ncm) == Some(
                        seq![split_left(cm, cut)] + place_chunk(
                            seq![split_right(cm, cut)] + ms0.skip(i as int).skip(1),
                            ncm,
                        ),
                    ));
                    assert(seq![split_right(cm, cut)] + ms0.skip(i as int).skip(1)
                        =~= seq![split_right(cm, cut)] + ms0.skip(start as int));
                    assert(msw.take(start as int) =~= ms0.take((start - 1) as int) + seq![
                        split_left(cm, cut),
                    ]);
                    assert(msw.skip(start as int) =~= seq![split_right(cm, cut)] + ms0.skip(
                        start as int,
                    ));
                    assert(ms0.take((start - 1) as int) + (seq![split_left(cm, cut)]
                        + place_chunk(msw.skip(start as int), ncm)) =~= msw.take(start as int)
                        + place_chunk(msw.skip(start as int), ncm));
                    assert(integrate_ins(ms0, ncm) == Some(
                        msw.take(start as int) + place_chunk(msw.skip(start as int), ncm),
                    ));
                }
            } else {
                assert(msw == ms0);
                assert(msw.take(0) =~= Seq::<ChunkM>::empty());
                assert(msw.skip(0) =~= msw);
                assert(msw.take(start as int) + place_chunk(msw.skip(start as int), ncm)
                    =~= place_chunk(msw, ncm));
                assert(integrate_ins(ms0, ncm) == Some(
                    msw.take(start as int) + place_chunk(msw.skip(start as int), ncm),
                ));
            }
            }
        }
        // Conflict scan: pass over chunks that order before the new one.
        let m = self.chunks.len();
        let mut j: usize = start;
        let mut stopped: bool = false;
        while j < m && !stopped
            invariant
                start <= j <= m,
                m == self.chunks.len(),
                msw == models_of(self.chunks@),
                ncm == insert_model(*rec),
                stopped ==> j < m && !yields_to(msw[j as int], ncm),
                forall|k: int| start as int <= k < j as int ==> yields_to(
                    #[trigger] msw[k],
                    ncm,
                ),
            decreases m - j, (if stopped { 0int } else { 1int }),
        {
            proof {
                assert(msw[j as int] == self.chunks@[j as int]@);
            }
            if chunk_yields(&self.chunks[j], rec) {
                proof {
                    assert(yields_to(msw[j as int], ncm));
                }
                j = j + 1;
            } else {
                stopped = true;
            }
        }
        proof {
            assert(place_chunk(msw.skip(start as int), ncm) == msw.subrange(
                start as int,
                j as int,
            ) + (seq![ncm] + msw.skip(j as int))) by {
                lemma_place_unfold(msw.skip(start as int), (j - start) as int, ncm);
                assert(msw.skip(start as int).skip((j - start) as int) =~= msw.skip(j as int));
                assert(forall|k: int| 0 <= k < (j - start) as int ==> msw.skip(start as int)[k]
                    == msw[k + start as int]);
                assert(msw.skip(start as int).take((j - start) as int) =~= msw.subrange(
                    start as int,
                    j as int,
                ));
                if stopped {
                    assert(!yields_to(msw[j as int], ncm));
                    assert(msw.skip(j as int)[0] == msw[j as int]);
                    assert(place_chunk(msw.skip(j as int), ncm) == seq![ncm] + msw.skip(
                        j as int,
                    ));
                } else {
                    assert(j == m);
                    assert(msw.skip(j as int) =~= Seq::<ChunkM>::empty());
                    assert(place_chunk(msw.skip(j as int), ncm) == seq![ncm]);
                    assert(seq![ncm] + msw.skip(j as int) =~= seq![ncm]);
                }
            }
        }
        let nc = Chunk {
            peer: rec.peer,
            clock: rec.clock,
            content: copy_bytes(&rec.content, 0, rec.content.len()),
            left_origin: rec.left_origin,
            right_origin: rec.right_origin,
            deleted: false,
            fresh: true,
            newly_deleted: false,
        };
        proof {
            assert(nc@ =~= ncm);
        }
        self.chunks.insert(j, nc);
        proof {
            assert(integrate_ins(ms0, ncm) == Some(models_of(self.chunks@))) by {
                assert(models_of(self.chunks@) =~= msw.take(start as int) + (msw.subrange(
                    start as int,
                    j as int,
                ) + (seq![ncm] + msw.skip(j as int))));
            }
            assert(chunk_wf(ncm));
            assert(chunks_wf(ms0));
            lemma_integrate_props(ms0, ncm);
        }
        self.visible_len = self.visible_len + rec.content.len() as u32;
        Ok(())
    }
}

/// While no chunk before `i` holds the left origin byte, integration passes
/// over the prefix unchanged.
pub proof fn lemma_integrate_unfold(cs: Seq<ChunkM>, i: int, nc: ChunkM)
    requires
        0 <= i <= cs.len(),
        nc.left_origin is Some,
        forall|k: int| 0 <= k < i ==> !holds_byte(#[trigger] cs[k], nc.left_origin.unwrap()),
    ensures
        integrate_ins(cs, nc) == (match integrate_ins(cs.skip(i), nc) {
            None => None,
            Some(r) => Some(cs.take(i) + r),
        }),
    decreases i,
{
    if i == 0 {
        assert(cs.skip(0) =~= cs);
        match integrate_ins(cs, nc) {
            None => {},
            Some(r) => {
                assert(cs.take(0) + r =~= r);
            },
        }
    } else {
        assert(!holds_byte(cs[0], nc.left_origin.unwrap()));
        assert(forall|k: int| 0 <= k < i - 1 ==> cs.skip(1)[k] == cs[k + 1]);
        lemma_integrate_unfold(cs.skip(1), i - 1, nc);
        assert(cs.skip(1).skip(i - 1) =~= cs.skip(i));
        match integrate_ins(cs.skip(i), nc) {
            None => {},
            Some(r) => {
                assert(seq![cs[0]] + (cs.skip(1).take(i - 1) + r) =~= cs.take(i) + r);
            },
        }
    }
}

/// While every chunk before `m` yields to the new chunk, placement passes
/// over the prefix unchanged.
pub proof fn lemma_place_unfold(cs: Seq<ChunkM>, m: int, nc: ChunkM)
    requires
        0 <= m <= cs.len(),
        forall|k: int| 0 <= k < m ==> yields_to(#[trigger] cs[k], nc),
    ensures
        place_chunk(cs, nc) == cs.take(m) + place_chunk(cs.skip(m), nc),
    decreases m,
{
    if m == 0 {
        assert(cs.skip(0) =~= cs);
        assert(cs.take(0) + place_chunk(cs, nc) =~= place_chunk(cs, nc));
    } else {
        assert(yields_to(cs[0], nc));
        assert(forall|k: int| 0 <= k < m - 1 ==> cs.skip(1)[k] == cs[k + 1]);
        lemma_place_unfold(cs.skip(1), m - 1, nc);
        assert(cs.skip(1).skip(m - 1) =~= cs.skip(m));
        assert(seq![cs[0]] + (cs.skip(1).take(m - 1) + place_chunk(cs.skip(m), nc)) =~= cs.take(
            m,
        ) + place_chunk(cs.skip(m), nc));
    }
}

} // verus!
