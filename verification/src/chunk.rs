use vstd::prelude::*;

verus! {

/// Identity of a single stored byte: the inserting peer together with the
/// logical clock value assigned to that byte.
///
/// The per-peer clock advances by the byte length of every local insertion,
/// so each byte of every operation gets its own globally unique
/// `(peer, clock)` pair. A chunk of `n` bytes whose first byte has clock `c`
/// covers the clock range `[c, c + n)`; splitting the chunk preserves the
/// identity of every byte.
pub type ByteId = (u64, u64);

/// The atomic unit of stored text: a contiguous run of bytes inserted by one
/// peer in one operation (possibly split later at delete or insert
/// boundaries).
///
/// Chunks stand in a `Vec` in document order; a chunk's left and right
/// neighbours are the adjacent elements of that sequence, so the sequence
/// realizes the doubly linked chunk list without ownership cycles.
pub struct Chunk {
    /// Peer that created the chunk.
    pub peer: u64,
    /// Clock of the first content byte; byte `i` of `content` has the
    /// identity `(peer, clock + i)`.
    pub clock: u64,
    /// The stored bytes (UTF-8 encoded text).
    pub content: Vec<u8>,
    /// Identity of the byte immediately to the left (tombstones included)
    /// when the chunk was created; `None` for a chunk created at the start
    /// of the document. The conflict resolver uses it to detect concurrent
    /// inserts at one position.
    pub left_origin: Option<ByteId>,
    /// Identity of the byte immediately to the right at creation time;
    /// `None` for a chunk created at the end of the document.
    pub right_origin: Option<ByteId>,
    /// Tombstone flag: a deleted chunk keeps its place so that concurrent
    /// operations that still reference its position can be resolved; it is
    /// never physically removed here.
    pub deleted: bool,
    /// True while the chunk was created during the currently open
    /// transaction; cleared at commit.
    pub fresh: bool,
    /// True while the chunk became deleted during the currently open
    /// transaction; cleared at commit.
    pub newly_deleted: bool,
}

/// The mathematical model of a chunk: the same fields with the content as a
/// byte sequence. All specifications and proofs speak of chunk models.
#[verifier::ext_equal]
pub struct ChunkM {
    pub peer: u64,
    pub clock: u64,
    pub content: Seq<u8>,
    pub left_origin: Option<ByteId>,
    pub right_origin: Option<ByteId>,
    pub deleted: bool,
    pub fresh: bool,
    pub newly_deleted: bool,
}

impl View for Chunk {
    type V = ChunkM;

    open spec fn view(&self) -> ChunkM {
        ChunkM {
            peer: self.peer,
            clock: self.clock,
            content: self.content@,
            left_origin: self.left_origin,
            right_origin: self.right_origin,
            deleted: self.deleted,
            fresh: self.fresh,
            newly_deleted: self.newly_deleted,
        }
    }
}

/// The model of a whole chunk sequence.
pub open spec fn models_of(cs: Seq<Chunk>) -> Seq<ChunkM> {
    cs.map_values(|c: Chunk| c@)
}

/// Identity of a chunk's first byte.
pub open spec fn chunk_id(c: ChunkM) -> ByteId {
    (c.peer, c.clock)
}

/// A chunk contributes to the visible text iff it is not a tombstone.
pub open spec fn visible(c: ChunkM) -> bool {
    !c.deleted
}

/// A chunk was visible when the currently open transaction started: it is
/// not newly created, and it is either still visible or was tombstoned only
/// during this transaction.
pub open spec fn pre_visible(c: ChunkM) -> bool {
    !c.fresh && (!c.deleted || c.newly_deleted)
}

/// No transaction-local marks: the state left behind by a commit.
pub open spec fn chunk_clean(c: ChunkM) -> bool {
    !c.fresh && !c.newly_deleted
}

/// Well-formedness of a single chunk: content is never empty and the clock
/// range of its bytes stays representable.
pub open spec fn chunk_wf(c: ChunkM) -> bool {
    c.content.len() > 0 && c.clock + c.content.len() <= u64::MAX
}

pub open spec fn chunks_wf(cs: Seq<ChunkM>) -> bool {
    forall|i: int| 0 <= i < cs.len() ==> chunk_wf(#[trigger] cs[i])
}

pub open spec fn chunks_clean(cs: Seq<ChunkM>) -> bool {
    forall|i: int| 0 <= i < cs.len() ==> chunk_clean(#[trigger] cs[i])
}

/// The visible text: the concatenation of the non-deleted chunk contents in
/// document order. Never stored — always derived.
pub open spec fn text_of(cs: Seq<ChunkM>) -> Seq<u8>
    decreases cs.len(),
{
    if cs.len() == 0 {
        Seq::<u8>::empty()
    } else {
        (if visible(cs[0]) {
            cs[0].content
        } else {
            Seq::<u8>::empty()
        }) + text_of(cs.skip(1))
    }
}

/// The text as it was visible when the open transaction started, derived
/// from the transaction-local marks. Equal to `text_of` in a clean state.
pub open spec fn pre_text_of(cs: Seq<ChunkM>) -> Seq<u8>
    decreases cs.len(),
{
    if cs.len() == 0 {
        Seq::<u8>::empty()
    } else {
        (if pre_visible(cs[0]) {
            cs[0].content
        } else {
            Seq::<u8>::empty()
        }) + pre_text_of(cs.skip(1))
    }
}

/// What a chunk adds to the visible text.
pub open spec fn piece(c: ChunkM) -> Seq<u8> {
    if visible(c) {
        c.content
    } else {
        Seq::<u8>::empty()
    }
}

/// What a chunk adds to the pre-transaction text.
pub open spec fn pre_piece(c: ChunkM) -> Seq<u8> {
    if pre_visible(c) {
        c.content
    } else {
        Seq::<u8>::empty()
    }
}

pub proof fn lemma_text_concat(a: Seq<ChunkM>, b: Seq<ChunkM>)
    ensures
        text_of(a + b) == text_of(a) + text_of(b),
    decreases a.len(),
{
    if a.len() == 0 {
        assert(a + b =~= b);
        assert(text_of(a) + text_of(b) =~= text_of(b));
    } else {
        assert((a + b).skip(1) =~= a.skip(1) + b);
        lemma_text_concat(a.skip(1), b);
        assert((a + b)[0] == a[0]);
        assert(text_of(a + b) =~= text_of(a) + text_of(b));
    }
}

pub proof fn lemma_pre_text_concat(a: Seq<ChunkM>, b: Seq<ChunkM>)
    ensures
        pre_text_of(a + b) == pre_text_of(a) + pre_text_of(b),
    decreases a.len(),
{
    if a.len() == 0 {
        assert(a + b =~= b);
        assert(pre_text_of(a) + pre_text_of(b) =~= pre_text_of(b));
    } else {
        assert((a + b).skip(1) =~= a.skip(1) + b);
        lemma_pre_text_concat(a.skip(1), b);
        assert((a + b)[0] == a[0]);
        assert(pre_text_of(a + b) =~= pre_text_of(a) + pre_text_of(b));
    }
}

/// Splitting a chunk sequence anywhere splits its text accordingly.
pub proof fn lemma_text_split(cs: Seq<ChunkM>, i: int)
    requires
        0 <= i <= cs.len(),
    ensures
        text_of(cs) == text_of(cs.take(i)) + text_of(cs.skip(i)),
{
    assert(cs =~= cs.take(i) + cs.skip(i));
    lemma_text_concat(cs.take(i), cs.skip(i));
}

pub proof fn lemma_pre_text_split(cs: Seq<ChunkM>, i: int)
    requires
        0 <= i <= cs.len(),
    ensures
        pre_text_of(cs) == pre_text_of(cs.take(i)) + pre_text_of(cs.skip(i)),
{
    assert(cs =~= cs.take(i) + cs.skip(i));
    lemma_pre_text_concat(cs.take(i), cs.skip(i));
}

/// Appending one chunk appends what it adds to the text.
pub proof fn lemma_text_push(cs: Seq<ChunkM>, c: ChunkM)
    ensures
        text_of(cs.push(c)) == text_of(cs) + (if visible(c) {
            c.content
        } else {
            Seq::<u8>::empty()
        }),
        pre_text_of(cs.push(c)) == pre_text_of(cs) + (if pre_visible(c) {
            c.content
        } else {
            Seq::<u8>::empty()
        }),
{
    let single = seq![c];
    assert(cs.push(c) =~= cs + single);
    lemma_text_concat(cs, single);
    lemma_pre_text_concat(cs, single);
    assert(single.skip(1) =~= Seq::<ChunkM>::empty());
    assert(text_of(single.skip(1)) == Seq::<u8>::empty());
    assert(pre_text_of(single.skip(1)) == Seq::<u8>::empty());
    assert(single[0] == c);
    assert(text_of(single) == (if visible(c) {
        c.content
    } else {
        Seq::<u8>::empty()
    }) + text_of(single.skip(1)));
    assert(pre_text_of(single) == (if pre_visible(c) {
        c.content
    } else {
        Seq::<u8>::empty()
    }) + pre_text_of(single.skip(1)));
    assert(text_of(cs.push(c)) =~= text_of(cs) + (if visible(c) {
        c.content
    } else {
        Seq::<u8>::empty()
    }));
    assert(pre_text_of(cs.push(c)) =~= pre_text_of(cs) + (if pre_visible(c) {
        c.content
    } else {
        Seq::<u8>::empty()
    }));
}

pub proof fn lemma_text_single(c: ChunkM)
    ensures
        text_of(seq![c]) == piece(c),
        pre_text_of(seq![c]) == pre_piece(c),
{
    let s = seq![c];
    assert(s.skip(1) =~= Seq::<ChunkM>::empty());
    assert(text_of(s.skip(1)) == Seq::<u8>::empty());
    assert(pre_text_of(s.skip(1)) == Seq::<u8>::empty());
    assert(s[0] == c);
    assert(text_of(s) =~= piece(c));
    assert(pre_text_of(s) =~= pre_piece(c));
}

pub proof fn lemma_text_three(a: ChunkM, b: ChunkM, c: ChunkM)
    ensures
        text_of(seq![a, b, c]) == piece(a) + piece(b) + piece(c),
        pre_text_of(seq![a, b, c]) == pre_piece(a) + pre_piece(b) + pre_piece(c),
{
    let s = seq![a, b, c];
    assert(s =~= seq![a] + (seq![b] + seq![c]));
    lemma_text_concat(seq![a], seq![b] + seq![c]);
    lemma_text_concat(seq![b], seq![c]);
    lemma_pre_text_concat(seq![a], seq![b] + seq![c]);
    lemma_pre_text_concat(seq![b], seq![c]);
    lemma_text_single(a);
    lemma_text_single(b);
    lemma_text_single(c);
    assert(text_of(s) =~= piece(a) + piece(b) + piece(c));
    assert(pre_text_of(s) =~= pre_piece(a) + pre_piece(b) + pre_piece(c));
}

/// After a commit every chunk is clean, and then the pre-transaction text
/// coincides with the visible text.
pub proof fn lemma_clean_pre_text(cs: Seq<ChunkM>)
    requires
        chunks_clean(cs),
    ensures
        pre_text_of(cs) == text_of(cs),
    decreases cs.len(),
{
    if cs.len() > 0 {
        assert(chunk_clean(cs[0]));
        assert(chunks_clean(cs.skip(1))) by {
            assert(forall|i: int|
                0 <= i < cs.skip(1).len() ==> cs.skip(1)[i] == cs[i + 1]);
        }
        lemma_clean_pre_text(cs.skip(1));
    }
}

/// `models_of` commutes with the sequence operations the loops use.
pub proof fn lemma_models_push(cs: Seq<Chunk>, c: Chunk)
    ensures
        models_of(cs.push(c)) == models_of(cs).push(c@),
{
    assert(models_of(cs.push(c)) =~= models_of(cs).push(c@));
}

pub proof fn lemma_models_take(cs: Seq<Chunk>, i: int)
    requires
        0 <= i <= cs.len(),
    ensures
        models_of(cs.take(i)) == models_of(cs).take(i),
{
    assert(models_of(cs.take(i)) =~= models_of(cs).take(i));
}

pub proof fn lemma_models_skip(cs: Seq<Chunk>, i: int)
    requires
        0 <= i <= cs.len(),
    ensures
        models_of(cs.skip(i)) == models_of(cs).skip(i),
{
    assert(models_of(cs.skip(i)) =~= models_of(cs).skip(i));
}

/// Copies the byte range `[from, to)` out of a vector; the splitting
/// primitive for chunk contents.
pub fn copy_bytes(v: &Vec<u8>, from: usize, to: usize) -> (r: Vec<u8>)
    requires
        from <= to <= v@.len(),
    ensures
        r@ == v@.subrange(from as int, to as int),
{
    let mut r: Vec<u8> = Vec::new();
    let mut i: usize = from;
    while i < to
        invariant
            from <= i <= to <= v@.len(),
            r@ == v@.subrange(from as int, i as int),
        decreases to - i,
    {
        r.push(v[i]);
        proof {
            assert(v@.subrange(from as int, (i + 1) as int) =~= v@.subrange(
                from as int,
                i as int,
            ).push(v@[i as int]));
        }
        i = i + 1;
    }
    r
}

impl Chunk {
    /// An exact copy of this chunk.
    pub fn dup(&self) -> (r: Chunk)
        ensures
            r@ == self@,
    {
        let r = Chunk {
            peer: self.peer,
            clock: self.clock,
            content: copy_bytes(&self.content, 0, self.content.len()),
            left_origin: self.left_origin,
            right_origin: self.right_origin,
            deleted: self.deleted,
            fresh: self.fresh,
            newly_deleted: self.newly_deleted,
        };
        proof {
            assert(r.content@ =~= self.content@);
            assert(r@ =~= self@);
        }
        r
    }
}

} // verus!
