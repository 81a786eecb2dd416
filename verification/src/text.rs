use vstd::prelude::*;
use crate::chunk::{copy_bytes, lemma_clean_pre_text};
use crate::delta::{DeltaEntry, apply_delta, coalesced};
use crate::errors::YTextError;
use crate::merge::{apply_del, insert_model, integrate_ins};
use crate::ops::{InsertRecord, TextOp};
use crate::store::TextCore;

verus! {

/// A shared data type for collaborative text editing, holding UTF-8 encoded
/// bytes; all indices and lengths are counted in bytes.
///
/// A value starts *preliminary*: a plain local string with no peer identity
/// and no chunk graph. Integrating it into a hosting document turns it
/// *integrated* exactly once; from then on every mutation runs through the
/// chunk store and transaction machinery, and edits made concurrently by
/// other peers merge deterministically.
pub enum YText {
    Prelim(Vec<u8>),
    Integrated(TextCore),
}

/// Batches the operations of one commit cycle. Operations apply to the
/// chunk store immediately — later operations in the same transaction see
/// their effect — while `records` collects the change summary the transport
/// layer replays on other peers, and the change event fires once, at
/// commit.
pub struct YTransaction {
    /// The operations of this transaction, in order, for the transport.
    pub records: Vec<TextOp>,
}

/// The event delivered once per commit: an immutable snapshot, computed at
/// commit time and never recomputed, of the transaction's net effect.
pub struct YTextEvent {
    /// The delta of the transaction, in document order, coalesced.
    pub delta: Vec<DeltaEntry>,
    /// The visible text after the commit: the state of the value the event
    /// refers to. The hosting layer, which owns the live value, resolves
    /// this snapshot back to its handle when dispatching callbacks.
    pub target: Vec<u8>,
    /// Path from the document root to the changed value; empty for a value
    /// hosted directly at the root, as this engine hosts it.
    pub path: Vec<u32>,
}

/// Handle returned by observer registration; dropping it is the hosting
/// layer's cue to unregister the callback it keyed under `id`.
pub struct YTextObserver {
    pub id: u64,
}

impl YText {
    /// The visible text.
    pub open spec fn text(&self) -> Seq<u8> {
        match self {
            YText::Prelim(v) => v@,
            YText::Integrated(c) => c.text(),
        }
    }

    /// The text as it stood when the open transaction started; equal to
    /// `text()` for a preliminary value, which has no transactions.
    pub open spec fn pre_text(&self) -> Seq<u8> {
        match self {
            YText::Prelim(v) => v@,
            YText::Integrated(c) => c.pre_text(),
        }
    }

    pub open spec fn inv(&self) -> bool {
        match self {
            YText::Prelim(v) => v@.len() <= u32::MAX,
            YText::Integrated(c) => c.inv(),
        }
    }

    pub open spec fn is_prelim(&self) -> bool {
        self is Prelim
    }

    /// No transaction marks outstanding.
    pub open spec fn is_clean(&self) -> bool {
        match self {
            YText::Prelim(_) => true,
            YText::Integrated(c) => c.clean(),
        }
    }

    /// The integrated chunk store (meaningful only when integrated).
    pub open spec fn as_core(&self) -> TextCore
        recommends
            !self.is_prelim(),
    {
        match self {
            YText::Integrated(c) => *c,
            YText::Prelim(_) => vstd::pervasive::arbitrary::<TextCore>(),
        }
    }

    /// Room for `n` more bytes: the visible text stays within the length
    /// type and, when integrated, the clock does not wrap.
    pub open spec fn can_insert(&self, n: int) -> bool {
        &&& self.text().len() + n <= u32::MAX
        &&& match self {
            YText::Prelim(_) => true,
            YText::Integrated(c) => c.clock + n <= u64::MAX,
        }
    }

    /// Creates a new preliminary value holding `init` (empty when `None`).
    pub fn new(init: Option<Vec<u8>>) -> (r: YText)
        requires
            match init {
                Some(v) => v@.len() <= u32::MAX,
                None => true,
            },
        ensures
            r.inv(),
            r.is_prelim(),
            r.is_clean(),
            r.text() == match init {
                Some(v) => v@,
                None => Seq::<u8>::empty(),
            },
    {
        match init {
            Some(v) => YText::Prelim(v),
            None => {
                let v: Vec<u8> = Vec::new();
                proof {
                    assert(v@ =~= Seq::<u8>::empty());
                }
                YText::Prelim(v)
            },
        }
    }

    /// True while the value is preliminary (not yet integrated).
    pub fn prelim(&self) -> (r: bool)
        ensures
            r == self.is_prelim(),
    {
        match self {
            YText::Prelim(_) => true,
            YText::Integrated(_) => false,
        }
    }

    /// Byte length of the visible text; O(1), maintained incrementally.
    pub fn length(&self) -> (r: u32)
        requires
            self.inv(),
        ensures
            r == self.text().len(),
    {
        match self {
            YText::Prelim(v) => v.len() as u32,
            YText::Integrated(c) => c.visible_len,
        }
    }

    /// The visible text, read from the live state at call time.
    pub fn to_string(&self, txn: &YTransaction) -> (r: Vec<u8>)
        ensures
            r@ == self.text(),
    {
        match self {
            YText::Prelim(v) => {
                let r = copy_bytes(v, 0, v.len());
                proof {
                    assert(r@ =~= v@);
                }
                r
            },
            YText::Integrated(c) => c.to_bytes(),
        }
    }

    /// The visible text under its serialized form, which for a text value
    /// is the text itself.
    pub fn to_json(&self, txn: &YTransaction) -> (r: Vec<u8>)
        ensures
            r@ == self.text(),
    {
        self.to_string(txn)
    }

    /// Inserts `chunk` at byte position `index` of the visible text.
    /// An out-of-range index — judged against the live text, not a stale
    /// snapshot — is rejected with `Range` and changes nothing.
    pub fn insert(&mut self, txn: &mut YTransaction, index: u32, chunk: &Vec<u8>) -> (r: Result<
        (),
        YTextError,
    >)
        requires
            old(self).inv(),
            old(self).can_insert(chunk@.len() as int),
        ensures
            final(self).inv(),
            final(self).is_prelim() == old(self).is_prelim(),
            index as int <= old(self).text().len() ==> {
                &&& r is Ok
                &&& final(self).text() == old(self).text().take(index as int) + chunk@
                    + old(self).text().skip(index as int)
                &&& (!old(self).is_prelim() ==> final(self).pre_text() == old(
                    self,
                ).pre_text())
            },
            index as int > old(self).text().len() ==> {
                &&& r == Err::<(), YTextError>(YTextError::Range)
                &&& *final(self) == *old(self)
                &&& final(txn).records@ == old(txn).records@
            },
            old(self).is_prelim() ==> final(txn).records@ == old(txn).records@,
            !old(self).is_prelim() && index as int <= old(self).text().len() && chunk@.len() == 0
                ==> final(txn).records@ == old(txn).records@,
            !old(self).is_prelim() && index as int <= old(self).text().len() && chunk@.len() > 0
                ==> (exists|ir: InsertRecord|
                {
                    &&& final(txn).records@ == old(txn).records@.push(TextOp::Insert(ir))
                    &&& ir.content@ == chunk@
                    &&& ir.peer == old(self).as_core().peer
                }),
    {
        match self {
            YText::Prelim(v) => {
                if index > v.len() as u32 {
                    return Err(YTextError::Range);
                }
                let i = index as usize;
                let mut out = copy_bytes(v, 0, i);
                let mut mid = copy_bytes(chunk, 0, chunk.len());
                let mut tail = copy_bytes(v, i, v.len());
                out.append(&mut mid);
                out.append(&mut tail);
                proof {
                    assert(out@ =~= v@.take(index as int) + chunk@ + v@.skip(index as int));
                }
                *v = out;
                Ok(())
            },
            YText::Integrated(c) => {
                if index > c.visible_len {
                    return Err(YTextError::Range);
                }
                if chunk.len() == 0 {
                    proof {
                        assert(c.text().take(index as int) + chunk@ + c.text().skip(
                            index as int,
                        ) =~= c.text());
                    }
                    return Ok(());
                }
                let rec = c.insert_local(index, chunk);
                let ghost recg = rec;
                txn.records.push(TextOp::Insert(rec));
                proof {
                    assert(txn.records@ == old(txn).records@.push(TextOp::Insert(recg)));
                }
                Ok(())
            },
        }
    }

    /// Appends `chunk` at the end of the visible text.
    pub fn push(&mut self, txn: &mut YTransaction, chunk: &Vec<u8>) -> (r: Result<(), YTextError>)
        requires
            old(self).inv(),
            old(self).can_insert(chunk@.len() as int),
        ensures
            final(self).inv(),
            final(self).is_prelim() == old(self).is_prelim(),
            r is Ok,
            final(self).text() == old(self).text() + chunk@,
            !old(self).is_prelim() ==> final(self).pre_text() == old(self).pre_text(),
    {
        let l = self.length();
        let r = self.insert(txn, l, chunk);
        proof {
            assert(old(self).text().take(l as int) + chunk@ + old(self).text().skip(l as int)
                =~= old(self).text() + chunk@);
        }
        r
    }

    /// Deletes the byte range `[index, index + length)` of the visible
    /// text. A range reaching past the live visible text is rejected with
    /// `Range` and changes nothing.
    pub fn delete(&mut self, txn: &mut YTransaction, index: u32, length: u32) -> (r: Result<
        (),
        YTextError,
    >)
        requires
            old(self).inv(),
        ensures
            final(self).inv(),
            final(self).is_prelim() == old(self).is_prelim(),
            index as int + length as int <= old(self).text().len() ==> {
                &&& r is Ok
                &&& final(self).text() == old(self).text().take(index as int) + old(
                    self,
                ).text().skip(index as int + length as int)
                &&& (!old(self).is_prelim() ==> final(self).pre_text() == old(
                    self,
                ).pre_text())
            },
            index as int + length as int > old(self).text().len() ==> {
                &&& r == Err::<(), YTextError>(YTextError::Range)
                &&& *final(self) == *old(self)
                &&& final(txn).records@ == old(txn).records@
            },
            old(txn).records@.is_prefix_of(final(txn).records@),
    {
        match self {
            YText::Prelim(v) => {
                if index as u64 + length as u64 > v.len() as u64 {
                    return Err(YTextError::Range);
                }
                let i = index as usize;
                let j = i + length as usize;
                let mut out = copy_bytes(v, 0, i);
                let mut tail = copy_bytes(v, j, v.len());
                out.append(&mut tail);
                proof {
                    assert(out@ =~= v@.take(index as int) + v@.skip(
                        index as int + length as int,
                    ));
                }
                *v = out;
                Ok(())
            },
            YText::Integrated(c) => {
                if index as u64 + length as u64 > c.visible_len as u64 {
                    return Err(YTextError::Range);
                }
                let recs = c.delete_local(index, length);
                let mut k: usize = 0;
                let n = recs.len();
                let ghost recs0 = recs@;
                while k < n
                    invariant
                        k <= n,
                        n == recs@.len(),
                        recs0 == recs@,
                        old(txn).records@.is_prefix_of(txn.records@),
                    decreases n - k,
                {
                    let d = recs[k];
                    txn.records.push(TextOp::Delete(d));
                    k = k + 1;
                }
                Ok(())
            },
        }
    }

    /// Registers an observer. Fails with `Unsupported` on a preliminary
    /// value: there is no chunk store to observe yet. The returned handle
    /// carries the subscription id under which the hosting layer keys the
    /// callback; commit events are dispatched to every registered id.
    pub fn observe(&mut self) -> (r: Result<YTextObserver, YTextError>)
        requires
            old(self).inv(),
        ensures
            final(self).inv(),
            final(self).text() == old(self).text(),
            final(self).pre_text() == old(self).pre_text(),
            final(self).is_prelim() == old(self).is_prelim(),
            old(self).is_prelim() ==> r == Err::<YTextObserver, YTextError>(
                YTextError::Unsupported,
            ) && *final(self) == *old(self),
            !old(self).is_prelim() ==> {
                &&& (r matches Ok(ob) && ob.id == old(self).as_core().next_sub)
                &&& final(self).as_core().subs@ == old(self).as_core().subs@.push(
                    old(self).as_core().next_sub,
                )
            },
    {
        match self {
            YText::Prelim(_) => Err(YTextError::Unsupported),
            YText::Integrated(c) => {
                let id = c.next_sub;
                if c.next_sub < u64::MAX {
                    c.next_sub = c.next_sub + 1;
                }
                c.subs.push(id);
                Ok(YTextObserver { id })
            },
        }
    }

    /// Integrates a preliminary value into a hosting document: the document
    /// supplies the unique peer id, and the value gains its chunk store. A
    /// value integrates exactly once; a second attempt fails with `State`
    /// and leaves the integrated state intact.
    pub fn integrate(&mut self, peer: u64) -> (r: Result<(), YTextError>)
        requires
            old(self).inv(),
        ensures
            final(self).inv(),
            final(self).text() == old(self).text(),
            final(self).pre_text() == old(self).pre_text(),
            old(self).is_prelim() ==> {
                &&& r is Ok
                &&& !final(self).is_prelim()
                &&& final(self).is_clean()
                &&& final(self).as_core().peer == peer
            },
            !old(self).is_prelim() ==> r == Err::<(), YTextError>(YTextError::State)
                && *final(self) == *old(self),
    {
        match self {
            YText::Prelim(v) => {
                let core = TextCore::new_core(peer, v);
                *self = YText::Integrated(core);
                Ok(())
            },
            YText::Integrated(_) => Err(YTextError::State),
        }
    }

    /// Replays one remote operation delivered by the transport, merging it
    /// through the conflict resolver. Requires an integrated value — a
    /// preliminary value has no chunk store — and causally delivered
    /// operations: an insert whose left origin is unknown fails with
    /// `Merge`, the fatal sign that the transport broke that obligation.
    pub fn apply_remote(&mut self, op: &TextOp) -> (r: Result<(), YTextError>)
        requires
            old(self).inv(),
            match op {
                TextOp::Insert(ir) => ir.content@.len() > 0 && old(self).text().len()
                    + ir.content@.len() <= u32::MAX && ir.clock + ir.content@.len()
                    <= u64::MAX,
                TextOp::Delete(dr) => dr.clock + dr.len <= u64::MAX,
            },
        ensures
            final(self).inv(),
            final(self).is_prelim() == old(self).is_prelim(),
            old(self).is_prelim() ==> r == Err::<(), YTextError>(YTextError::Unsupported)
                && *final(self) == *old(self),
            !old(self).is_prelim() ==> match op {
                TextOp::Insert(ir) => match r {
                    Ok(_) => {
                        &&& integrate_ins(old(self).as_core().ms(), insert_model(*ir))
                            == Some(final(self).as_core().ms())
                        &&& final(self).text().len() == old(self).text().len()
                            + ir.content@.len()
                        &&& final(self).pre_text() == old(self).pre_text()
                    },
                    Err(e) => e == YTextError::Merge && *final(self) == *old(self),
                },
                TextOp::Delete(dr) => {
                    &&& r is Ok
                    &&& final(self).as_core().ms() == apply_del(
                        old(self).as_core().ms(),
                        dr.peer,
                        dr.clock,
                        dr.len,
                    )
                    &&& final(self).pre_text() == old(self).pre_text()
                    &&& final(self).text().len() <= old(self).text().len()
                },
            },
    {
        match self {
            YText::Prelim(_) => Err(YTextError::Unsupported),
            YText::Integrated(c) => match op {
                TextOp::Insert(ir) => c.apply_insert(ir),
                TextOp::Delete(dr) => {
                    c.apply_delete(dr);
                    Ok(())
                },
            },
        }
    }
}

impl YTransaction {
    /// Opens a transaction with an empty change summary.
    pub fn new() -> (r: YTransaction)
        ensures
            r.records@.len() == 0,
    {
        YTransaction { records: Vec::new() }
    }

    /// Commits the transaction against `text`: derives the delta of the
    /// net effect, clears the transaction marks, squashes adjacent
    /// same-origin chunks, and returns the event for the observers.
    ///
    /// The visible text is untouched — squashing only changes the internal
    /// chunk count — and applying the returned delta to the text as it
    /// stood when the transaction began reproduces the committed text
    /// byte for byte.
    pub fn commit(&mut self, text: &mut YText) -> (ev: YTextEvent)
        requires
            old(text).inv(),
            old(text).pre_text().len() <= u32::MAX,
        ensures
            final(text).inv(),
            final(text).is_clean(),
            final(text).is_prelim() == old(text).is_prelim(),
            final(text).text() == old(text).text(),
            final(text).pre_text() == final(text).text(),
            apply_delta(old(text).pre_text(), ev.delta@) == Some(old(text).text()),
            coalesced(ev.delta@),
            ev.target@ == old(text).text(),
            ev.path@.len() == 0,
            final(self).records@ == old(self).records@,
    {
        match text {
            YText::Prelim(v) => {
                let delta: Vec<DeltaEntry> = Vec::new();
                let target = copy_bytes(v, 0, v.len());
                proof {
                    assert(target@ =~= v@);
                    assert(apply_delta(v@, delta@) == Some(v@));
                }
                YTextEvent { delta, target, path: Vec::new() }
            },
            YText::Integrated(c) => {
                let delta = c.compute_delta();
                let target = c.to_bytes();
                c.clear_marks();
                c.squash();
                proof {
                    lemma_clean_pre_text(c.ms());
                }
                YTextEvent { delta, target, path: Vec::new() }
            },
        }
    }
}

impl YTextEvent {
    /// The delta of the committed transaction: retain, insert and delete
    /// entries in document order, coalesced.
    pub fn delta(&self) -> (r: &Vec<DeltaEntry>)
        ensures
            r@ == self.delta@,
    {
        &self.delta
    }

    /// The visible text of the changed value after the commit.
    pub fn target(&self) -> (r: &Vec<u8>)
        ensures
            r@ == self.target@,
    {
        &self.target
    }

    /// Path from the document root down to the changed value.
    pub fn path(&self) -> (r: &Vec<u32>)
        ensures
            r@ == self.path@,
    {
        &self.path
    }
}

} // verus!
