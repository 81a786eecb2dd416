use vstd::prelude::*;

verus! {

/// One entry of a change delta, read left to right over the pre-transaction
/// visible text:
///
/// - `Retain(n)`: the next `n` bytes stay unchanged;
/// - `Insert(bytes)`: the bytes become visible at this position;
/// - `Delete(n)`: the next `n` bytes stop being visible.
///
/// Bytes of the pre-image that no entry reaches are retained implicitly.
#[derive(Debug, PartialEq, Eq)]
pub enum DeltaEntry {
    Retain(usize),
    Insert(Vec<u8>),
    Delete(usize),
}

/// What a delta does: entries consume the pre-image left to right, emitting
/// retained and inserted bytes; whatever is left of the pre-image when the
/// entries end is kept. `None` when an entry reaches past the end of the
/// pre-image.
pub open spec fn apply_delta(pre: Seq<u8>, d: Seq<DeltaEntry>) -> Option<Seq<u8>>
    decreases d.len(),
{
    if d.len() == 0 {
        Some(pre)
    } else {
        match d[0] {
            DeltaEntry::Retain(n) => if n <= pre.len() {
                match apply_delta(pre.skip(n as int), d.skip(1)) {
                    Some(r) => Some(pre.take(n as int) + r),
                    None => None,
                }
            } else {
                None
            },
            DeltaEntry::Insert(s) => match apply_delta(pre, d.skip(1)) {
                Some(r) => Some(s@ + r),
                None => None,
            },
            DeltaEntry::Delete(n) => if n <= pre.len() {
                apply_delta(pre.skip(n as int), d.skip(1))
            } else {
                None
            },
        }
    }
}

/// How many bytes of the pre-image an entry consumes.
pub open spec fn entry_used(e: DeltaEntry) -> int {
    match e {
        DeltaEntry::Retain(n) => n as int,
        DeltaEntry::Insert(_) => 0,
        DeltaEntry::Delete(n) => n as int,
    }
}

/// How many bytes of the pre-image a delta consumes in total.
pub open spec fn delta_used(d: Seq<DeltaEntry>) -> int
    decreases d.len(),
{
    if d.len() == 0 {
        0
    } else {
        entry_used(d[0]) + delta_used(d.skip(1))
    }
}

/// The bytes a delta emits (retained and inserted ones, in order), not
/// counting the implicitly kept tail of the pre-image.
pub open spec fn delta_out(pre: Seq<u8>, d: Seq<DeltaEntry>) -> Seq<u8>
    decreases d.len(),
{
    if d.len() == 0 {
        Seq::<u8>::empty()
    } else {
        match d[0] {
            DeltaEntry::Retain(n) => pre.take(n as int) + delta_out(
                pre.skip(n as int),
                d.skip(1),
            ),
            DeltaEntry::Insert(s) => s@ + delta_out(pre, d.skip(1)),
            DeltaEntry::Delete(n) => delta_out(pre.skip(n as int), d.skip(1)),
        }
    }
}

/// What one entry appends to the emitted bytes when the delta before it has
/// consumed `u` bytes of the pre-image.
pub open spec fn entry_out(pre: Seq<u8>, u: int, e: DeltaEntry) -> Seq<u8> {
    match e {
        DeltaEntry::Retain(n) => pre.skip(u).take(n as int),
        DeltaEntry::Insert(s) => s@,
        DeltaEntry::Delete(_) => Seq::<u8>::empty(),
    }
}

pub open spec fn same_kind(a: DeltaEntry, b: DeltaEntry) -> bool {
    match (a, b) {
        (DeltaEntry::Retain(_), DeltaEntry::Retain(_)) => true,
        (DeltaEntry::Insert(_), DeltaEntry::Insert(_)) => true,
        (DeltaEntry::Delete(_), DeltaEntry::Delete(_)) => true,
        _ => false,
    }
}

/// No two adjacent entries of the same kind.
pub open spec fn coalesced(d: Seq<DeltaEntry>) -> bool {
    forall|i: int| 0 <= i && i + 1 < d.len() ==> !same_kind(#[trigger] d[i], d[i + 1])
}

/// An entry that does something.
pub open spec fn entry_nonempty(e: DeltaEntry) -> bool {
    match e {
        DeltaEntry::Retain(n) => n > 0,
        DeltaEntry::Insert(s) => s@.len() > 0,
        DeltaEntry::Delete(n) => n > 0,
    }
}

pub proof fn lemma_delta_used_nonneg(d: Seq<DeltaEntry>)
    ensures
        delta_used(d) >= 0,
    decreases d.len(),
{
    if d.len() > 0 {
        lemma_delta_used_nonneg(d.skip(1));
    }
}

/// A delta that consumes no more than the pre-image applies successfully,
/// and the result is its emitted bytes followed by the unconsumed tail.
pub proof fn lemma_apply_delta_char(pre: Seq<u8>, d: Seq<DeltaEntry>)
    requires
        delta_used(d) <= pre.len(),
    ensures
        apply_delta(pre, d) == Some(delta_out(pre, d) + pre.skip(delta_used(d))),
    decreases d.len(),
{
    if d.len() == 0 {
        assert(delta_out(pre, d) + pre.skip(0) =~= pre);
    } else {
        lemma_delta_used_nonneg(d.skip(1));
        match d[0] {
            DeltaEntry::Retain(n) => {
                lemma_apply_delta_char(pre.skip(n as int), d.skip(1));
                let u = delta_used(d.skip(1));
                assert(pre.skip(n as int).skip(u) =~= pre.skip(n + u));
                assert(pre.take(n as int) + (delta_out(pre.skip(n as int), d.skip(1))
                    + pre.skip(n + u)) =~= delta_out(pre, d) + pre.skip(delta_used(d)));
            },
            DeltaEntry::Insert(s) => {
                lemma_apply_delta_char(pre, d.skip(1));
                assert(s@ + (delta_out(pre, d.skip(1)) + pre.skip(delta_used(d.skip(1))))
                    =~= delta_out(pre, d) + pre.skip(delta_used(d)));
            },
            DeltaEntry::Delete(n) => {
                lemma_apply_delta_char(pre.skip(n as int), d.skip(1));
                let u = delta_used(d.skip(1));
                assert(pre.skip(n as int).skip(u) =~= pre.skip(n + u));
                assert(delta_out(pre.skip(n as int), d.skip(1)) + pre.skip(n + u)
                    =~= delta_out(pre, d) + pre.skip(delta_used(d)));
            },
        }
    }
}

pub proof fn lemma_delta_used_push(d: Seq<DeltaEntry>, e: DeltaEntry)
    ensures
        delta_used(d.push(e)) == delta_used(d) + entry_used(e),
    decreases d.len(),
{
    if d.len() == 0 {
        assert(d.push(e)[0] == e);
        assert(d.push(e).skip(1) =~= Seq::<DeltaEntry>::empty());
        assert(delta_used(d.push(e).skip(1)) == 0);
    } else {
        assert(d.push(e).skip(1) =~= d.skip(1).push(e));
        assert(d.push(e)[0] == d[0]);
        lemma_delta_used_push(d.skip(1), e);
    }
}

/// Appending one entry appends its contribution to the emitted bytes, read
/// at the position the delta has consumed up to.
pub proof fn lemma_delta_out_push(pre: Seq<u8>, d: Seq<DeltaEntry>, e: DeltaEntry)
    requires
        delta_used(d) + entry_used(e) <= pre.len(),
    ensures
        delta_out(pre, d.push(e)) == delta_out(pre, d) + (match e {
            DeltaEntry::Retain(n) => pre.skip(delta_used(d)).take(n as int),
            DeltaEntry::Insert(s) => s@,
            DeltaEntry::Delete(_) => Seq::<u8>::empty(),
        }),
    decreases d.len(),
{
    lemma_delta_used_nonneg(d);
    if d.len() == 0 {
        assert(d.push(e)[0] == e);
        assert(d.push(e).skip(1) =~= Seq::<DeltaEntry>::empty());
        assert(delta_used(d) == 0);
        assert(delta_out(pre, d) == Seq::<u8>::empty());
        assert(forall|p: Seq<u8>| delta_out(p, Seq::<DeltaEntry>::empty())
            == Seq::<u8>::empty());
        match e {
            DeltaEntry::Retain(n) => {
                assert(pre.skip(0) =~= pre);
                assert(delta_out(pre.skip(n as int), d.push(e).skip(1))
                    == Seq::<u8>::empty());
                assert(delta_out(pre, d.push(e)) == pre.take(n as int) + delta_out(
                    pre.skip(n as int),
                    d.push(e).skip(1),
                ));
                assert(delta_out(pre, d.push(e)) =~= delta_out(pre, d)
                    + pre.skip(delta_used(d)).take(n as int));
            },
            DeltaEntry::Insert(s) => {
                assert(delta_out(pre, d.push(e).skip(1)) == Seq::<u8>::empty());
                assert(delta_out(pre, d.push(e)) == s@ + delta_out(
                    pre,
                    d.push(e).skip(1),
                ));
                assert(delta_out(pre, d.push(e)) =~= delta_out(pre, d) + s@);
            },
            DeltaEntry::Delete(n) => {
                assert(delta_out(pre.skip(n as int), d.push(e).skip(1))
                    == Seq::<u8>::empty());
                assert(delta_out(pre, d.push(e)) == delta_out(
                    pre.skip(n as int),
                    d.push(e).skip(1),
                ));
                assert(delta_out(pre, d.push(e)) =~= delta_out(pre, d)
                    + Seq::<u8>::empty());
            },
        }
    } else {
        assert(d.push(e).skip(1) =~= d.skip(1).push(e));
        assert(d.push(e)[0] == d[0]);
        lemma_delta_used_nonneg(d.skip(1));
        match d[0] {
            DeltaEntry::Retain(m) => {
                lemma_delta_out_push(pre.skip(m as int), d.skip(1), e);
                let u = delta_used(d.skip(1));
                assert(pre.skip(m as int).skip(u) =~= pre.skip(m + u));
                match e {
                    DeltaEntry::Retain(n) => {
                        assert(pre.take(m as int) + (delta_out(pre.skip(m as int), d.skip(1))
                            + pre.skip(m + u).take(n as int)) =~= delta_out(pre, d)
                            + pre.skip(delta_used(d)).take(n as int));
                    },
                    DeltaEntry::Insert(s) => {
                        assert(pre.take(m as int) + (delta_out(pre.skip(m as int), d.skip(1))
                            + s@) =~= delta_out(pre, d) + s@);
                    },
                    DeltaEntry::Delete(_) => {
                        assert(pre.take(m as int) + (delta_out(pre.skip(m as int), d.skip(1))
                            + Seq::<u8>::empty()) =~= delta_out(pre, d) + Seq::<u8>::empty());
                    },
                }
            },
            DeltaEntry::Insert(s0) => {
                lemma_delta_out_push(pre, d.skip(1), e);
                match e {
                    DeltaEntry::Retain(n) => {
                        assert(s0@ + (delta_out(pre, d.skip(1))
                            + pre.skip(delta_used(d.skip(1))).take(n as int))
                            =~= delta_out(pre, d) + pre.skip(delta_used(d)).take(n as int));
                    },
                    DeltaEntry::Insert(s) => {
                        assert(s0@ + (delta_out(pre, d.skip(1)) + s@)
                            =~= delta_out(pre, d) + s@);
                    },
                    DeltaEntry::Delete(_) => {
                        assert(s0@ + (delta_out(pre, d.skip(1)) + Seq::<u8>::empty())
                            =~= delta_out(pre, d) + Seq::<u8>::empty());
                    },
                }
            },
            DeltaEntry::Delete(m) => {
                lemma_delta_out_push(pre.skip(m as int), d.skip(1), e);
                let u = delta_used(d.skip(1));
                assert(pre.skip(m as int).skip(u) =~= pre.skip(m + u));
                match e {
                    DeltaEntry::Retain(n) => {
                        assert(delta_out(pre.skip(m as int), d.skip(1))
                            + pre.skip(m + u).take(n as int) =~= delta_out(pre, d)
                            + pre.skip(delta_used(d)).take(n as int));
                    },
                    DeltaEntry::Insert(s) => {},
                    DeltaEntry::Delete(_) => {},
                }
            },
        }
    }
}

/// Appends `e` to a coalesced delta, merging it into the last entry when
/// both are of the same kind, so the delta stays coalesced while its
/// meaning grows by exactly `e`'s contribution.
#[verifier::rlimit(100)]
pub fn delta_push(d: &mut Vec<DeltaEntry>, e: DeltaEntry, Ghost(pre): Ghost<Seq<u8>>)
    requires
        coalesced(old(d)@),
        entry_nonempty(e),
        delta_used(old(d)@) + entry_used(e) <= pre.len(),
        pre.len() <= u32::MAX,
    ensures
        coalesced(final(d)@),
        delta_used(final(d)@) == delta_used(old(d)@) + entry_used(e),
        delta_out(pre, final(d)@) == delta_out(pre, old(d)@) + entry_out(
            pre,
            delta_used(old(d)@),
            e,
        ),
{
    let ghost e0 = e;
    proof {
        lemma_delta_used_nonneg(old(d)@);
    }
    let n = d.len();
    let mut do_merge: bool = false;
    if n > 0 {
        do_merge = match (&d[n - 1], &e) {
            (DeltaEntry::Retain(_), DeltaEntry::Retain(_)) => true,
            (DeltaEntry::Insert(_), DeltaEntry::Insert(_)) => true,
            (DeltaEntry::Delete(_), DeltaEntry::Delete(_)) => true,
            _ => false,
        };
    }
    if do_merge {
        let ghost d0 = d@;
        let ghost dl = d@.drop_last();
        let ghost last0 = d@.last();
        proof {
            assert(d0 =~= dl.push(last0));
            lemma_delta_used_push(dl, last0);
            lemma_delta_used_nonneg(dl);
            lemma_delta_out_push(pre, dl, last0);
            assert(forall|i: int| 0 <= i && i + 1 < dl.len() ==> !same_kind(
                #[trigger] dl[i],
                dl[i + 1],
            ));
        }
        {
            let last = d.pop().unwrap();
            let combined: DeltaEntry = match (last, e) {
                (DeltaEntry::Retain(a), DeltaEntry::Retain(b)) => DeltaEntry::Retain(a + b),
                (DeltaEntry::Insert(mut v), DeltaEntry::Insert(w)) => {
                    let mut w2 = w;
                    v.append(&mut w2);
                    DeltaEntry::Insert(v)
                },
                (DeltaEntry::Delete(a), DeltaEntry::Delete(b)) => DeltaEntry::Delete(a + b),
                (a, _) => a,
            };
            proof {
                lemma_delta_used_push(dl, combined);
                lemma_delta_out_push(pre, dl, combined);
                let u = delta_used(dl);
                match combined {
                    DeltaEntry::Retain(m) => {
                        assert(pre.skip(u).take(m as int) =~= pre.skip(u).take(
                            entry_used(last0),
                        ) + pre.skip(u + entry_used(last0)).take(entry_used(e)));
                        assert(pre.skip(u + entry_used(last0)) =~= pre.skip(
                            delta_used(d0),
                        ));
                    },
                    DeltaEntry::Insert(_) => {},
                    DeltaEntry::Delete(_) => {},
                }
                assert(dl.push(combined) =~= dl.push(combined));
            }
            d.push(combined);
            proof {
                assert(d@ =~= dl.push(combined));
                assert(coalesced(d@)) by {
                    assert(forall|i: int| 0 <= i && i + 1 < dl.len() ==> !same_kind(
                        #[trigger] d@[i],
                        d@[i + 1],
                    ));
                    if dl.len() > 0 {
                        assert(!same_kind(dl[dl.len() - 1], last0));
                        assert(same_kind(last0, combined));
                        assert(!same_kind(d@[d@.len() - 2], d@[d@.len() - 1]));
                    }
                }
                assert(delta_out(pre, d@) =~= delta_out(pre, d0) + entry_out(
                    pre,
                    delta_used(d0),
                    e0,
                ));
            }
        }
    } else {
        let ghost d0 = d@;
        proof {
            lemma_delta_used_push(d0, e);
            lemma_delta_out_push(pre, d0, e);
        }
        d.push(e);
        proof {
            assert(d@ =~= d0.push(e));
        }
    }
}

/// Applies a delta to a byte string: the executable counterpart of
/// `apply_delta`, usable by callers that want to replay a change summary.
pub fn apply_delta_bytes(pre: &Vec<u8>, d: &Vec<DeltaEntry>) -> (r: Option<Vec<u8>>)
    ensures
        match r {
            Some(v) => apply_delta(pre@, d@) == Some(v@),
            None => apply_delta(pre@, d@) is None,
        },
{
    let mut out: Vec<u8> = Vec::new();
    let mut p: usize = 0;
    let mut i: usize = 0;
    let n = d.len();
    proof {
        assert(pre@.skip(0) =~= pre@);
        assert(d@.skip(0) =~= d@);
        match apply_delta(pre@, d@) {
            Some(r) => {
                assert(Seq::<u8>::empty() + r =~= r);
            },
            None => {},
        }
    }
    while i < n
        invariant
            i <= n,
            n == d@.len(),
            p <= pre@.len(),
            apply_delta(pre@, d@) == (match apply_delta(pre@.skip(p as int), d@.skip(i as int)) {
                Some(r) => Some(out@ + r),
                None => None::<Seq<u8>>,
            }),
        decreases n - i,
    {
        proof {
            assert(d@.skip(i as int)[0] == d@[i as int]);
            assert(d@.skip(i as int).skip(1) =~= d@.skip(i as int + 1));
        }
        match &d[i] {
            DeltaEntry::Retain(m) => {
                let m = *m;
                if m > pre.len() - p {
                    proof {
                        assert(apply_delta(pre@.skip(p as int), d@.skip(i as int)) is None);
                    }
                    return None;
                }
                let mut piece = crate::chunk::copy_bytes(pre, p, p + m);
                proof {
                    assert(pre@.subrange(p as int, p as int + m as int) =~= pre@.skip(
                        p as int,
                    ).take(m as int));
                    assert(pre@.skip(p as int).skip(m as int) =~= pre@.skip(p as int + m as int));
                }
                out.append(&mut piece);
                p = p + m;
            },
            DeltaEntry::Insert(s) => {
                let mut piece = crate::chunk::copy_bytes(s, 0, s.len());
                proof {
                    assert(s@.subrange(0, s@.len() as int) =~= s@);
                }
                out.append(&mut piece);
            },
            DeltaEntry::Delete(m) => {
                let m = *m;
                if m > pre.len() - p {
                    proof {
                        assert(apply_delta(pre@.skip(p as int), d@.skip(i as int)) is None);
                    }
                    return None;
                }
                proof {
                    assert(pre@.skip(p as int).skip(m as int) =~= pre@.skip(p as int + m as int));
                }
                p = p + m;
            },
        }
        i = i + 1;
    }
    proof {
        assert(d@.skip(n as int) =~= Seq::<DeltaEntry>::empty());
        assert(apply_delta(pre@.skip(p as int), d@.skip(n as int)) == Some(pre@.skip(p as int)));
    }
    let mut tail = crate::chunk::copy_bytes(pre, p, pre.len());
    proof {
        assert(pre@.subrange(p as int, pre@.len() as int) =~= pre@.skip(p as int));
    }
    out.append(&mut tail);
    Some(out)
}

} // verus!
