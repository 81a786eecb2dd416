use vstd::prelude::*;
use crate::chunk::{
    Chunk, ChunkM, chunk_wf, chunks_clean, chunks_wf, copy_bytes, lemma_models_push,
    lemma_pre_text_split, lemma_text_push, lemma_text_split, models_of, pre_text_of,
    pre_visible, text_of, visible,
};
use crate::delta::{
    DeltaEntry, apply_delta, coalesced, delta_out, delta_push, delta_used,
};
use crate::ops::{DeleteRecord, InsertRecord};

verus! {

/// The chunk store of one integrated text value, together with the identity
/// and clock of the local peer.
///
/// The store owns all chunks; they stand in `chunks` in document order, so
/// each chunk's left and right neighbours are the adjacent elements. The
/// visible text is always derived from the chunks; only its byte length is
/// maintained incrementally.
pub struct TextCore {
    /// All chunks in document order, tombstones included.
    pub chunks: Vec<Chunk>,
    /// Byte length of the visible text, kept in step with `chunks`.
    pub visible_len: u32,
    /// Identity of the local peer, assigned once by the hosting document.
    pub peer: u64,
    /// Next clock value for locally created bytes; advances by the byte
    /// length of every local insert.
    pub clock: u64,
    /// Identifiers handed out to registered observers.
    pub subs: Vec<u64>,
    /// Next observer identifier.
    pub next_sub: u64,
}

impl TextCore {
    /// The chunk sequence as its mathematical model.
    pub open spec fn ms(&self) -> Seq<ChunkM> {
        models_of(self.chunks@)
    }

    /// The visible text: non-deleted chunk contents in document order.
    pub open spec fn text(&self) -> Seq<u8> {
        text_of(self.ms())
    }

    /// The text as it was visible when the open transaction started.
    pub open spec fn pre_text(&self) -> Seq<u8> {
        pre_text_of(self.ms())
    }

    /// Well-formedness: every chunk is well formed and the cached length
    /// equals the byte length of the derived visible text.
    pub open spec fn inv(&self) -> bool {
        &&& chunks_wf(self.ms())
        &&& self.visible_len == self.text().len()
    }

    /// No transaction-local marks outstanding: the state between commits.
    pub open spec fn clean(&self) -> bool {
        chunks_clean(self.ms())
    }

    /// The parts of the store that text operations leave untouched.
    pub open spec fn same_admin(&self, other: &TextCore) -> bool {
        &&& self.peer == other.peer
        &&& self.subs@ == other.subs@
        &&& self.next_sub == other.next_sub
    }

    /// A fresh integrated store owned by `peer`, holding `init` as a single
    /// chunk created at clock 0 (no chunk at all when `init` is empty).
    pub fn new_core(peer: u64, init: &Vec<u8>) -> (r: TextCore)
        requires
            init@.len() <= u32::MAX,
        ensures
            r.inv(),
            r.clean(),
            r.text() == init@,
            r.pre_text() == init@,
            r.peer == peer,
            r.clock == init@.len(),
            r.visible_len == init@.len(),
            r.subs@.len() == 0,
    {
        let mut chunks: Vec<Chunk> = Vec::new();
        if init.len() > 0 {
            let c = Chunk {
                peer,
                clock: 0,
                content: copy_bytes(init, 0, init.len()),
                left_origin: None,
                right_origin: None,
                deleted: false,
                fresh: false,
                newly_deleted: false,
            };
            chunks.push(c);
        }
        let r = TextCore {
            chunks,
            visible_len: init.len() as u32,
            peer,
            clock: init.len() as u64,
            subs: Vec::new(),
            next_sub: 0,
        };
        proof {
            if init@.len() == 0 {
                assert(r.ms() =~= Seq::<ChunkM>::empty());
                assert(r.text() =~= init@);
                assert(r.pre_text() =~= init@);
            } else {
                assert(r.ms() =~= seq![r.chunks@[0]@]);
                crate::chunk::lemma_text_single(r.chunks@[0]@);
                assert(r.chunks@[0]@.content =~= init@);
                assert(r.text() == init@);
                assert(r.pre_text() == init@);
            }
        }
        r
    }

    /// Reads the visible text out of the live chunk store.
    pub fn to_bytes(&self) -> (r: Vec<u8>)
        ensures
            r@ == self.text(),
    {
        let mut r: Vec<u8> = Vec::new();
        let mut i: usize = 0;
        while i < self.chunks.len()
            invariant
                i <= self.chunks.len(),
                r@ == text_of(self.ms().take(i as int)),
            decreases self.chunks.len() - i,
        {
            proof {
                assert(self.ms().take(i as int).push(self.ms()[i as int]) =~= self.ms().take(
                    i as int + 1,
                ));
                lemma_text_push(self.ms().take(i as int), self.ms()[i as int]);
            }
            if !self.chunks[i].deleted {
                let mut piece = copy_bytes(&self.chunks[i].content, 0, self.chunks[i].content.len());
                proof {
                    assert(self.chunks@[i as int].content@.subrange(
                        0,
                        self.chunks@[i as int].content@.len() as int,
                    ) =~= self.chunks@[i as int].content@);
                }
                r.append(&mut piece);
            }
            i = i + 1;
        }
        proof {
            assert(self.ms().take(self.chunks@.len() as int) =~= self.ms());
        }
        r
    }

    /// Inserts `content` as a fresh chunk at visible byte position `pos`,
    /// splitting the chunk containing `pos` when the position falls inside
    /// it, and returns the operation record for the transport layer.
    ///
    /// The caller has validated `pos` against the live visible text.
    #[verifier::rlimit(100)]
    #[verifier::spinoff_prover]
    pub fn insert_local(&mut self, pos: u32, content: &Vec<u8>) -> (rec: InsertRecord)
        requires
            old(self).inv(),
            pos <= old(self).visible_len,
            content@.len() > 0,
            old(self).text().len() + content@.len() <= u32::MAX,
            old(self).clock + content@.len() <= u64::MAX,
        ensures
            final(self).inv(),
            final(self).text() == old(self).text().take(pos as int) + content@
                + old(self).text().skip(pos as int),
            final(self).pre_text() == old(self).pre_text(),
            final(self).same_admin(old(self)),
            final(self).clock == old(self).clock + content@.len(),
            final(self).visible_len == old(self).visible_len + content@.len(),
            rec.peer == old(self).peer,
            rec.clock == old(self).clock,
            rec.content@ == content@,
    {
        let ghost ms0 = self.ms();
        let ghost t0 = self.text();
        let n = self.chunks.len();

        // Find the chunk holding position `pos`, counting visible bytes.
        let mut i: usize = 0;
        let mut acc: u32 = 0;
        while i < n && pos > acc && (self.chunks[i].deleted || (pos - acc) as usize
            >= self.chunks[i].content.len())
            invariant
                old(self) == self,
                n == self.chunks.len(),
                i <= n,
                acc <= pos,
                pos <= old(self).visible_len,
                old(self).inv(),
                acc == text_of(ms0.take(i as int)).len(),
                ms0 == self.ms(),
                t0 == self.text(),
            decreases n - i,
        {
            proof {
                assert(ms0.take(i as int).push(ms0[i as int]) =~= ms0.take(i as int + 1));
                lemma_text_push(ms0.take(i as int), ms0[i as int]);
                if !ms0[i as int].deleted {
                    assert(acc + ms0[i as int].content.len() <= pos);
                }
            }
            if !self.chunks[i].deleted {
                acc = acc + self.chunks[i].content.len() as u32;
            }
            i = i + 1;
        }
        proof {
            lemma_text_split(ms0, i as int);
            if i == n {
                assert(ms0.take(n as int) =~= ms0);
                assert(acc == t0.len());
                assert(acc == pos);
            }
            if !(pos > acc) {
                assert(acc == pos);
            }
        }

        // Rebuild the chunk sequence with the new chunk linked in.
        let mut out: Vec<Chunk> = Vec::new();
        let mut j: usize = 0;
        while j < i
            invariant
                j <= i <= n,
                n == self.chunks.len(),
                old(self) == self,
                models_of(out@) == ms0.take(j as int),
                ms0 == self.ms(),
            decreases i - j,
        {
            let c = self.chunks[j].dup();
            proof {
                lemma_models_push(out@, c);
                assert(ms0.take(j as int).push(ms0[j as int]) =~= ms0.take(j as int + 1));
            }
            out.push(c);
            j = j + 1;
        }

        let nc_content = copy_bytes(content, 0, content.len());
        proof {
            assert(nc_content@ =~= content@);
        }

        let ghost mut fin: Seq<ChunkM> = Seq::<ChunkM>::empty();
        let rec_left: Option<(u64, u64)>;
        let rec_right: Option<(u64, u64)>;
        let mut k: usize;
        if pos > acc {
            // The position falls strictly inside visible chunk `i`: split it.
            let c = self.chunks[i].dup();
            let rem: usize = (pos - acc) as usize;
            proof {
                assert(chunk_wf(ms0[i as int]));
                assert(0 < rem < c.content@.len());
            }
            let left_part = Chunk {
                peer: c.peer,
                clock: c.clock,
                content: copy_bytes(&c.content, 0, rem),
                left_origin: c.left_origin,
                right_origin: c.right_origin,
                deleted: c.deleted,
                fresh: c.fresh,
                newly_deleted: c.newly_deleted,
            };
            let right_part = Chunk {
                peer: c.peer,
                clock: c.clock + rem as u64,
                content: copy_bytes(&c.content, rem, c.content.len()),
                left_origin: Some((c.peer, c.clock + (rem - 1) as u64)),
                right_origin: c.right_origin,
                deleted: c.deleted,
                fresh: c.fresh,
                newly_deleted: c.newly_deleted,
            };
            rec_left = Some((c.peer, c.clock + (rem - 1) as u64));
            rec_right = Some((c.peer, c.clock + rem as u64));
            let nc = Chunk {
                peer: self.peer,
                clock: self.clock,
                content: nc_content,
                left_origin: rec_left,
                right_origin: rec_right,
                deleted: false,
                fresh: true,
                newly_deleted: false,
            };
            proof {
                lemma_models_push(out@, left_part);
            }
            out.push(left_part);
            proof {
                lemma_models_push(out@, nc);
            }
            out.push(nc);
            proof {
                lemma_models_push(out@, right_part);
            }
            out.push(right_part);
            k = i + 1;
            proof {
                fin = models_of(out@);
            }
        } else {
            // The position falls exactly between chunks: link the new chunk
            // in at index `i`.
            rec_left = if out.len() == 0 {
                None
            } else {
                let last = &out[out.len() - 1];
                proof {
                    assert(models_of(out@)[out@.len() - 1] == ms0[i as int - 1]);
                    assert(chunk_wf(ms0[i as int - 1]));
                }
                Some((last.peer, last.clock + (last.content.len() - 1) as u64))
            };
            rec_right = if i < n {
                Some((self.chunks[i].peer, self.chunks[i].clock))
            } else {
                None
            };
            let nc = Chunk {
                peer: self.peer,
                clock: self.clock,
                content: nc_content,
                left_origin: rec_left,
                right_origin: rec_right,
                deleted: false,
                fresh: true,
                newly_deleted: false,
            };
            proof {
                lemma_models_push(out@, nc);
            }
            out.push(nc);
            k = i;
            proof {
                fin = models_of(out@);
            }
        }

        // Copy the remaining chunks unchanged.
        let ghost k0 = k as int;
        while k < n
            invariant
                0 <= k0 <= k as int <= n,
                n == self.chunks.len(),
                old(self) == self,
                ms0 == self.ms(),
                models_of(out@) == fin + ms0.subrange(k0, k as int),
            decreases n - k,
        {
            let c = self.chunks[k].dup();
            proof {
                lemma_models_push(out@, c);
                assert((fin + ms0.subrange(k0, k as int)).push(ms0[k as int]) =~= fin
                    + ms0.subrange(k0, k as int + 1));
            }
            out.push(c);
            k = k + 1;
        }
        proof {
            assert(ms0.subrange(k0, n as int) =~= ms0.skip(k0));
        }

        let rec = InsertRecord {
            peer: self.peer,
            clock: self.clock,
            content: copy_bytes(content, 0, content.len()),
            left_origin: rec_left,
            right_origin: rec_right,
        };
        proof {
            assert(rec.content@ =~= content@);
        }

        let ghost ncm = ChunkM {
            peer: self.peer,
            clock: self.clock,
            content: content@,
            left_origin: rec_left,
            right_origin: rec_right,
            deleted: false,
            fresh: true,
            newly_deleted: false,
        };

        proof {
            let fm = fin + ms0.skip(k0);
            assert(models_of(out@) == fm);
            let t1 = text_of(ms0.take(i as int));
            lemma_text_split(ms0, i as int);
            lemma_pre_text_split(ms0, i as int);
            if k0 == i + 1 {
                // Split case.
                let cm = ms0[i as int];
                let rem = pos - acc;
                let lm = ChunkM { content: cm.content.take(rem as int), ..cm };
                let rm = ChunkM {
                    clock: (cm.clock + rem) as u64,
                    content: cm.content.skip(rem as int),
                    left_origin: Some((cm.peer, (cm.clock + rem - 1) as u64)),
                    ..cm
                };
                assert(fm =~= ms0.take(i as int) + seq![lm, ncm, rm] + ms0.skip(i as int + 1));
                crate::chunk::lemma_text_concat(ms0.take(i as int) + seq![lm, ncm, rm],
                    ms0.skip(i as int + 1));
                crate::chunk::lemma_text_concat(ms0.take(i as int), seq![lm, ncm, rm]);
                crate::chunk::lemma_pre_text_concat(ms0.take(i as int) + seq![lm, ncm, rm],
                    ms0.skip(i as int + 1));
                crate::chunk::lemma_pre_text_concat(ms0.take(i as int), seq![lm, ncm, rm]);
                // Unfold the three-element middle.
                let mid = seq![lm, ncm, rm];
                crate::chunk::lemma_text_three(lm, ncm, rm);
                assert(text_of(mid) == cm.content.take(rem as int) + content@
                    + cm.content.skip(rem as int));
                // The original chunk's visible text splits at `rem`.
                assert(ms0.skip(i as int)[0] == cm);
                assert(ms0.skip(i as int).skip(1) =~= ms0.skip(i as int + 1));
                assert(text_of(ms0.skip(i as int)) == cm.content + text_of(ms0.skip(i as int + 1)));
                assert(t0 == t1 + (cm.content + text_of(ms0.skip(i as int + 1))));
                assert(t1.len() == acc);
                assert(text_of(fm) == t1 + (cm.content.take(rem as int) + content@
                    + cm.content.skip(rem as int)) + text_of(ms0.skip(i as int + 1)));
                assert(t0.take(pos as int) =~= t1 + cm.content.take(rem as int));
                assert(t0.skip(pos as int) =~= cm.content.skip(rem as int) + text_of(
                    ms0.skip(i as int + 1),
                ));
                assert(text_of(fm) =~= t0.take(pos as int) + content@ + t0.skip(pos as int));
                // Pre-transaction text is unchanged: the split parts keep the
                // original marks and the new chunk is fresh.
                assert(crate::chunk::pre_piece(lm) + crate::chunk::pre_piece(ncm)
                    + crate::chunk::pre_piece(rm) =~= crate::chunk::pre_piece(cm));
                assert(pre_text_of(ms0.skip(i as int)) == crate::chunk::pre_piece(cm)
                    + pre_text_of(ms0.skip(i as int + 1)));
                assert(pre_text_of(fm) =~= pre_text_of(ms0));
                // Well-formedness of the rebuilt sequence.
                assert(chunk_wf(cm));
                assert(chunk_wf(lm));
                assert(chunk_wf(rm));
                assert(chunk_wf(ncm));
                assert forall|x: int| 0 <= x < fm.len() implies chunk_wf(#[trigger] fm[x]) by {
                    if x < i {
                        assert(fm[x] == ms0[x]);
                    } else if x > i + 2 {
                        assert(fm[x] == ms0[x - 2]);
                    }
                }
            } else {
                // Boundary case: the new chunk sits between chunks.
                assert(k0 == i);
                assert(acc == pos);
                assert(fm =~= ms0.take(i as int) + seq![ncm] + ms0.skip(i as int));
                crate::chunk::lemma_text_concat(ms0.take(i as int) + seq![ncm],
                    ms0.skip(i as int));
                crate::chunk::lemma_text_concat(ms0.take(i as int), seq![ncm]);
                crate::chunk::lemma_pre_text_concat(ms0.take(i as int) + seq![ncm],
                    ms0.skip(i as int));
                crate::chunk::lemma_pre_text_concat(ms0.take(i as int), seq![ncm]);
                crate::chunk::lemma_text_single(ncm);
                assert(text_of(seq![ncm]) == content@);
                assert(pre_text_of(seq![ncm]) == Seq::<u8>::empty());
                assert(t1.len() == acc);
                assert(t0 == t1 + text_of(ms0.skip(i as int)));
                assert(text_of(fm) == t1 + content@ + text_of(ms0.skip(i as int)));
                assert(t0.take(pos as int) =~= t1);
                assert(t0.skip(pos as int) =~= text_of(ms0.skip(i as int)));
                assert(text_of(fm) =~= t0.take(pos as int) + content@ + t0.skip(pos as int));
                assert(pre_text_of(fm) =~= pre_text_of(ms0));
                assert(chunk_wf(ncm));
                assert forall|x: int| 0 <= x < fm.len() implies chunk_wf(#[trigger] fm[x]) by {
                    if x < i {
                        assert(fm[x] == ms0[x]);
                    } else if x > i {
                        assert(fm[x] == ms0[x - 1]);
                    }
                }
            }
        }

        self.chunks = out;
        self.visible_len = self.visible_len + content.len() as u32;
        self.clock = self.clock + content.len() as u64;
        rec
    }
}

/// Cutting the byte range `[s, s + l)` out of `t`, as seen by a scan that
/// has processed the first `d` bytes of `t`: the part of the final result
/// the scan has produced so far.
spec fn cut_prefix(t: Seq<u8>, s: int, l: int, d: int) -> Seq<u8> {
    if d <= s {
        t.take(d)
    } else if d <= s + l {
        t.take(s)
    } else {
        t.take(s) + t.subrange(s + l, d)
    }
}

impl TextCore {
    /// Marks every chunk — and split fragment at the range boundaries —
    /// overlapping the visible byte range `[start, start + len)` as deleted,
    /// and returns one delete record per tombstoned fragment for the
    /// transport layer. Tombstones stay in place; only visibility changes.
    ///
    /// The caller has validated the range against the live visible text.
    #[verifier::rlimit(100)]
    #[verifier::spinoff_prover]
    pub fn delete_local(&mut self, start: u32, len: u32) -> (recs: Vec<DeleteRecord>)
        requires
            old(self).inv(),
            start + len <= old(self).visible_len,
        ensures
            final(self).inv(),
            final(self).text() == old(self).text().take(start as int) + old(self).text().skip(
                start as int + len as int,
            ),
            final(self).pre_text() == old(self).pre_text(),
            final(self).same_admin(old(self)),
            final(self).clock == old(self).clock,
            final(self).visible_len == old(self).visible_len - len,
    {
        let ghost ms0 = self.ms();
        let ghost t0 = self.text();
        let ghost s = start as int;
        let ghost l = len as int;
        let n = self.chunks.len();
        let mut out: Vec<Chunk> = Vec::new();
        let mut recs: Vec<DeleteRecord> = Vec::new();
        let mut skip_rem: u32 = start;
        let mut del_rem: u32 = len;
        let mut i: usize = 0;
        let ghost mut done: int = 0;
        while i < n
            invariant
                i <= n,
                n == self.chunks.len(),
                old(self) == self,
                old(self).inv(),
                ms0 == self.ms(),
                t0 == self.text(),
                s == start as int,
                l == len as int,
                0 <= s,
                0 <= l,
                s + l <= t0.len(),
                t0.len() <= u32::MAX,
                done == text_of(ms0.take(i as int)).len(),
                skip_rem as int == (if done <= s {
                    s - done
                } else {
                    0
                }),
                del_rem as int == (if done <= s {
                    l
                } else if done <= s + l {
                    s + l - done
                } else {
                    0
                }),
                text_of(models_of(out@)) == cut_prefix(t0, s, l, done),
                pre_text_of(models_of(out@)) == pre_text_of(ms0.take(i as int)),
                chunks_wf(models_of(out@)),
            decreases n - i,
        {
            let ghost cm = ms0[i as int];
            proof {
                assert(ms0.take(i as int).push(cm) =~= ms0.take(i as int + 1));
                lemma_text_push(ms0.take(i as int), cm);
                lemma_text_split(ms0, i as int);
                assert(ms0.skip(i as int)[0] == cm);
                assert(ms0.skip(i as int).skip(1) =~= ms0.skip(i as int + 1));
                assert(text_of(ms0.skip(i as int)) == crate::chunk::piece(cm) + text_of(
                    ms0.skip(i as int + 1),
                ));
                assert(chunk_wf(cm));
            }
            if self.chunks[i].deleted {
                let c = self.chunks[i].dup();
                proof {
                    lemma_models_push(out@, c);
                    lemma_text_push(models_of(out@), cm);
                }
                out.push(c);
            } else {
                proof {
                    assert(t0 == text_of(ms0.take(i as int)) + (cm.content + text_of(
                        ms0.skip(i as int + 1),
                    )));
                    assert(cm.content.len() <= t0.len());
                    assert(cm.content =~= t0.subrange(done, done + cm.content.len()));
                }
                let big_l: usize = self.chunks[i].content.len();
                let lu: u32 = big_l as u32;
                let c = self.chunks[i].dup();
                if skip_rem >= lu {
                    // Entirely before the deleted range.
                    proof {
                        lemma_models_push(out@, c);
                        lemma_text_push(models_of(out@), cm);
                        assert(cut_prefix(t0, s, l, done + lu as int) =~= cut_prefix(
                            t0,
                            s,
                            l,
                            done,
                        ) + cm.content);
                    }
                    out.push(c);
                    skip_rem = skip_rem - lu;
                } else if del_rem == 0 {
                    // Entirely after the deleted range (or nothing to delete).
                    proof {
                        lemma_models_push(out@, c);
                        lemma_text_push(models_of(out@), cm);
                        assert(cut_prefix(t0, s, l, done + lu as int) =~= cut_prefix(
                            t0,
                            s,
                            l,
                            done,
                        ) + cm.content);
                    }
                    out.push(c);
                    skip_rem = 0;
                } else {
                    // The deleted range intersects this chunk: keep the part
                    // before it, tombstone the covered part, keep the rest.
                    let a_off: u32 = skip_rem;
                    let rest: u32 = lu - a_off;
                    let d_here: u32 = if del_rem < rest {
                        del_rem
                    } else {
                        rest
                    };
                    proof {
                        assert(0 < d_here);
                        assert(a_off + d_here <= lu);
                        assert(done + a_off == (if done <= s {
                            s
                        } else {
                            done
                        }));
                    }
                    if a_off > 0 {
                        let left_part = Chunk {
                            peer: c.peer,
                            clock: c.clock,
                            content: copy_bytes(&c.content, 0, a_off as usize),
                            left_origin: c.left_origin,
                            right_origin: c.right_origin,
                            deleted: false,
                            fresh: c.fresh,
                            newly_deleted: c.newly_deleted,
                        };
                        proof {
                            lemma_models_push(out@, left_part);
                            lemma_text_push(models_of(out@), left_part@);
                        }
                        out.push(left_part);
                    }
                    let mid = Chunk {
                        peer: c.peer,
                        clock: c.clock + a_off as u64,
                        content: copy_bytes(&c.content, a_off as usize, (a_off + d_here) as usize),
                        left_origin: if a_off > 0 {
                            Some((c.peer, c.clock + (a_off - 1) as u64))
                        } else {
                            c.left_origin
                        },
                        right_origin: c.right_origin,
                        deleted: true,
                        fresh: c.fresh,
                        newly_deleted: true,
                    };
                    proof {
                        lemma_models_push(out@, mid);
                        lemma_text_push(models_of(out@), mid@);
                    }
                    out.push(mid);
                    recs.push(DeleteRecord {
                        peer: c.peer,
                        clock: c.clock + a_off as u64,
                        len: d_here as u64,
                    });
                    if a_off + d_here < lu {
                        let right_part = Chunk {
                            peer: c.peer,
                            clock: c.clock + (a_off + d_here) as u64,
                            content: copy_bytes(&c.content, (a_off + d_here) as usize, big_l),
                            left_origin: Some((c.peer, c.clock + (a_off + d_here - 1) as u64)),
                            right_origin: c.right_origin,
                            deleted: false,
                            fresh: c.fresh,
                            newly_deleted: c.newly_deleted,
                        };
                        proof {
                            lemma_models_push(out@, right_part);
                            lemma_text_push(models_of(out@), right_part@);
                        }
                        out.push(right_part);
                    }
                    proof {
                        assert(text_of(models_of(out@)) == cut_prefix(t0, s, l, done)
                            + cm.content.take(a_off as int) + cm.content.subrange(
                            a_off as int + d_here as int,
                            lu as int,
                        ));
                        assert(cut_prefix(t0, s, l, done + lu as int) =~= cut_prefix(
                            t0,
                            s,
                            l,
                            done,
                        ) + cm.content.take(a_off as int) + cm.content.subrange(
                            a_off as int + d_here as int,
                            lu as int,
                        ));
                        assert(cm.content.take(a_off as int) + cm.content.subrange(
                            a_off as int,
                            a_off as int + d_here as int,
                        ) + cm.content.subrange(a_off as int + d_here as int, lu as int)
                            =~= cm.content);
                        assert(pre_text_of(models_of(out@)) =~= pre_text_of(ms0.take(i as int))
                            + crate::chunk::pre_piece(cm));
                    }
                    skip_rem = 0;
                    del_rem = del_rem - d_here;
                }
            }
            proof {
                done = done + crate::chunk::piece(cm).len();
            }
            i = i + 1;
        }
        proof {
            assert(ms0.take(n as int) =~= ms0);
            assert(done == t0.len());
            assert(text_of(models_of(out@)) =~= t0.take(s) + t0.skip(s + l));
        }
        self.chunks = out;
        self.visible_len = self.visible_len - len;
        recs
    }

    /// Merges adjacent chunks that the same peer inserted consecutively:
    /// contiguous clock ranges, the right chunk anchored on the left one's
    /// last byte, neither a tombstone, neither carrying a transaction mark.
    /// The merged chunk keeps the origin of its earliest constituent, so
    /// conflict resolution is unaffected. Purely a representation
    /// optimization: the visible and pre-transaction texts are unchanged.
    #[verifier::rlimit(100)]
    pub fn squash(&mut self)
        requires
            old(self).inv(),
        ensures
            final(self).inv(),
            final(self).text() == old(self).text(),
            final(self).pre_text() == old(self).pre_text(),
            final(self).same_admin(old(self)),
            final(self).clock == old(self).clock,
            final(self).visible_len == old(self).visible_len,
            old(self).clean() ==> final(self).clean(),
            final(self).chunks@.len() <= old(self).chunks@.len(),
    {
        let ghost ms0 = self.ms();
        let n = self.chunks.len();
        let mut out: Vec<Chunk> = Vec::new();
        let mut i: usize = 0;
        while i < n
            invariant
                i <= n,
                n == self.chunks.len(),
                old(self) == self,
                old(self).inv(),
                ms0 == self.ms(),
                out@.len() <= i,
                text_of(models_of(out@)) == text_of(ms0.take(i as int)),
                pre_text_of(models_of(out@)) == pre_text_of(ms0.take(i as int)),
                chunks_wf(models_of(out@)),
                chunks_clean(ms0) ==> chunks_clean(models_of(out@)),
            decreases n - i,
        {
            let ghost cm = ms0[i as int];
            proof {
                assert(ms0.take(i as int).push(cm) =~= ms0.take(i as int + 1));
                lemma_text_push(ms0.take(i as int), cm);
                assert(chunk_wf(cm));
            }
            let c = self.chunks[i].dup();
            let mut do_merge: bool = false;
            if out.len() > 0 && !c.deleted && !c.fresh && !c.newly_deleted {
                proof {
                    assert(chunk_wf(models_of(out@)[out@.len() - 1]));
                    assert(models_of(out@)[out@.len() - 1] == out@[out@.len() - 1]@);
                }
                let last_ref = &out[out.len() - 1];
                do_merge = !last_ref.deleted && !last_ref.fresh && !last_ref.newly_deleted
                    && last_ref.peer == c.peer && last_ref.clock + last_ref.content.len() as u64
                    == c.clock && (match c.left_origin {
                    Some(b) => b.0 == last_ref.peer && b.1 == last_ref.clock
                        + (last_ref.content.len() - 1) as u64,
                    None => false,
                });
            }
            if do_merge {
                let ghost outm0 = models_of(out@);
                let ghost popt = text_of(outm0.drop_last());
                let ghost popp = pre_text_of(outm0.drop_last());
                let last = out.pop().unwrap();
                let ghost lastm = last@;
                proof {
                    assert(models_of(out@) =~= outm0.drop_last());
                    assert(outm0 =~= models_of(out@).push(lastm));
                    lemma_text_push(models_of(out@), lastm);
                    assert(visible(lastm));
                    assert(pre_visible(lastm));
                    assert(text_of(outm0) == popt + lastm.content);
                    assert(pre_text_of(outm0) == popp + lastm.content);
                }
                let mut combined_content = last.content;
                let mut tail = c.content;
                combined_content.append(&mut tail);
                let merged = Chunk {
                    peer: last.peer,
                    clock: last.clock,
                    content: combined_content,
                    left_origin: last.left_origin,
                    right_origin: c.right_origin,
                    deleted: false,
                    fresh: false,
                    newly_deleted: false,
                };
                proof {
                    assert(merged@.content == lastm.content + cm.content);
                    lemma_models_push(out@, merged);
                    lemma_text_push(models_of(out@), merged@);
                }
                out.push(merged);
                proof {
                    assert(visible(merged@));
                    assert(pre_visible(merged@));
                    assert(text_of(models_of(out@)) == popt + (lastm.content + cm.content));
                    assert(pre_text_of(models_of(out@)) == popp + (lastm.content + cm.content));
                    assert(visible(cm));
                    assert(pre_visible(cm));
                    assert(text_of(models_of(out@)) =~= text_of(outm0) + cm.content);
                    assert(pre_text_of(models_of(out@)) =~= pre_text_of(outm0) + cm.content);
                    assert(text_of(models_of(out@)) =~= text_of(ms0.take(i as int + 1)));
                    assert(pre_text_of(models_of(out@)) =~= pre_text_of(ms0.take(i as int + 1)));
                }
            } else {
                proof {
                    lemma_models_push(out@, c);
                    lemma_text_push(models_of(out@), cm);
                }
                out.push(c);
            }
            i = i + 1;
        }
        proof {
            assert(ms0.take(n as int) =~= ms0);
        }
        self.chunks = out;
    }

    /// Clears the transaction marks of every chunk; runs at commit, after
    /// the delta has been computed. Afterwards the pre-transaction text of
    /// the next transaction coincides with the visible text.
    pub fn clear_marks(&mut self)
        requires
            old(self).inv(),
        ensures
            final(self).inv(),
            final(self).clean(),
            final(self).text() == old(self).text(),
            final(self).same_admin(old(self)),
            final(self).clock == old(self).clock,
            final(self).visible_len == old(self).visible_len,
    {
        let ghost ms0 = self.ms();
        let n = self.chunks.len();
        let mut out: Vec<Chunk> = Vec::new();
        let mut i: usize = 0;
        while i < n
            invariant
                i <= n,
                n == self.chunks.len(),
                old(self) == self,
                old(self).inv(),
                ms0 == self.ms(),
                text_of(models_of(out@)) == text_of(ms0.take(i as int)),
                chunks_wf(models_of(out@)),
                chunks_clean(models_of(out@)),
            decreases n - i,
        {
            let ghost cm = ms0[i as int];
            proof {
                assert(ms0.take(i as int).push(cm) =~= ms0.take(i as int + 1));
                lemma_text_push(ms0.take(i as int), cm);
                assert(chunk_wf(cm));
            }
            let c = self.chunks[i].dup();
            let cleared = Chunk {
                peer: c.peer,
                clock: c.clock,
                content: c.content,
                left_origin: c.left_origin,
                right_origin: c.right_origin,
                deleted: c.deleted,
                fresh: false,
                newly_deleted: false,
            };
            proof {
                lemma_models_push(out@, cleared);
                lemma_text_push(models_of(out@), cleared@);
            }
            out.push(cleared);
            i = i + 1;
        }
        proof {
            assert(ms0.take(n as int) =~= ms0);
        }
        self.chunks = out;
    }

    /// Derives the delta of the open transaction: retain, insert and delete
    /// entries in document order, coalesced, describing the net effect of
    /// the transaction. Applying the delta to the text as it stood when the
    /// transaction began yields exactly the current visible text.
    #[verifier::rlimit(100)]
    pub fn compute_delta(&self) -> (d: Vec<DeltaEntry>)
        requires
            self.inv(),
            self.pre_text().len() <= u32::MAX,
        ensures
            apply_delta(self.pre_text(), d@) == Some(self.text()),
            coalesced(d@),
    {
        let ghost msv = self.ms();
        let ghost pre_all = self.pre_text();
        let n = self.chunks.len();
        let mut d: Vec<DeltaEntry> = Vec::new();
        let mut i: usize = 0;
        while i < n
            invariant
                i <= n,
                n == self.chunks.len(),
                self.inv(),
                msv == self.ms(),
                pre_all == self.pre_text(),
                pre_all.len() <= u32::MAX,
                delta_used(d@) == pre_text_of(msv.take(i as int)).len(),
                delta_out(pre_all, d@) == text_of(msv.take(i as int)),
                coalesced(d@),
            decreases n - i,
        {
            let ghost cm = msv[i as int];
            proof {
                assert(msv.take(i as int).push(cm) =~= msv.take(i as int + 1));
                lemma_text_push(msv.take(i as int), cm);
                lemma_pre_text_split(msv, i as int);
                assert(msv.skip(i as int)[0] == cm);
                assert(msv.skip(i as int).skip(1) =~= msv.skip(i as int + 1));
                assert(pre_text_of(msv.skip(i as int)) == crate::chunk::pre_piece(cm)
                    + pre_text_of(msv.skip(i as int + 1)));
                assert(chunk_wf(cm));
                assert(pre_all.skip(delta_used(d@)) =~= pre_text_of(msv.skip(i as int)));
            }
            let c = &self.chunks[i];
            let is_pre = !c.fresh && (!c.deleted || c.newly_deleted);
            if is_pre && !c.deleted {
                proof {
                    assert(pre_all.skip(delta_used(d@)).take(cm.content.len() as int)
                        =~= cm.content);
                }
                delta_push(&mut d, DeltaEntry::Retain(c.content.len()), Ghost(pre_all));
            } else if is_pre && c.deleted {
                delta_push(&mut d, DeltaEntry::Delete(c.content.len()), Ghost(pre_all));
            } else if !c.deleted {
                let piece = copy_bytes(&c.content, 0, c.content.len());
                proof {
                    assert(piece@ =~= cm.content);
                }
                delta_push(&mut d, DeltaEntry::Insert(piece), Ghost(pre_all));
            }
            i = i + 1;
        }
        proof {
            assert(msv.take(n as int) =~= msv);
            crate::delta::lemma_apply_delta_char(pre_all, d@);
            assert(pre_all.skip(delta_used(d@)) =~= Seq::<u8>::empty());
            assert(delta_out(pre_all, d@) + pre_all.skip(delta_used(d@)) =~= self.text());
        }
        d
    }
}

} // verus!
