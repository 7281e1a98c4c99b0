//! Ingestion of variant records into the index.

use crate::alleles::{compare_bytes, insert_allele, strictly_sorted, views_of};
use crate::types::{Index, IndexError, IndexView, Ingest, SourceEvent, U8Vec, VariantRecord};
use std::cmp::Ordering;
use vstd::prelude::*;

verus! {

broadcast use vstd::std_specs::hash::group_hash_axioms;

/// The alleles a record contributes: its reference allele and each
/// alternative allele.
pub open spec fn candidates(r: VariantRecord) -> Set<Seq<u8>> {
    views_of(r.alts@).to_set().insert(r.reference@)
}

/// What a record does to ingestion: dropped when it names another
/// chromosome; fatal at position 0; the end of ingestion when its 0-based
/// coordinate `pos - 1` lies at or past `num_bases`; otherwise indexed.
pub open spec fn record_outcome(r: VariantRecord, seq_name: Seq<u8>, num_bases: nat) -> Result<
    Ingest,
    IndexError,
> {
    if r.chrom@ != seq_name {
        Ok(Ingest::Ignored)
    } else if r.pos == 0 {
        Err(IndexError::ZeroPosition)
    } else if r.pos - 1 >= num_bases {
        Ok(Ingest::Overrun)
    } else {
        Ok(Ingest::Indexed)
    }
}

/// The index after alleles `a` were recorded at site `p`: a new site is
/// appended to the positions; a known one keeps its place and gains `a`.
pub open spec fn with_site(v: IndexView, p: usize, a: Set<Seq<u8>>) -> IndexView {
    if v.sites.contains_key(p) {
        IndexView { positions: v.positions, sites: v.sites.insert(p, v.sites[p].union(a)) }
    } else {
        IndexView { positions: v.positions.push(p), sites: v.sites.insert(p, a) }
    }
}

/// What an event does to ingestion: a decode error is skipped, the end of
/// the stream finishes it, and a record goes by `record_outcome`.
pub open spec fn event_outcome(e: SourceEvent, seq_name: Seq<u8>, num_bases: nat) -> Result<
    Ingest,
    IndexError,
> {
    match e {
        SourceEvent::RecordReady(r) => record_outcome(r, seq_name, num_bases),
        SourceEvent::DecodeError => Ok(Ingest::Skipped),
        SourceEvent::EndOfStream => Ok(Ingest::Finished),
    }
}

/// The index after one event.
pub open spec fn after_event(v: IndexView, e: SourceEvent, seq_name: Seq<u8>, num_bases: nat) -> IndexView {
    match e {
        SourceEvent::RecordReady(r) => if record_outcome(r, seq_name, num_bases) == Ok::<
            Ingest,
            IndexError,
        >(Ingest::Indexed) {
            with_site(v, (r.pos - 1) as usize, candidates(r))
        } else {
            v
        },
        _ => v,
    }
}

/// Whether an outcome ends the reading of records.
pub open spec fn stops(o: Ingest) -> bool {
    o == Ingest::Overrun || o == Ingest::Finished
}

/// The index before any event.
pub open spec fn empty_view() -> IndexView {
    IndexView { positions: Seq::empty(), sites: Map::empty() }
}

/// Ingestion of a stream of events, from an empty index: the index, and
/// whether reading has stopped. Events after a stop are not read; a fatal
/// fault ends it all.
pub open spec fn ingest(events: Seq<SourceEvent>, seq_name: Seq<u8>, num_bases: nat) -> Result<
    (IndexView, bool),
    IndexError,
>
    decreases events.len(),
{
    if events.len() == 0 {
        Ok((empty_view(), false))
    } else {
        match ingest(events.drop_last(), seq_name, num_bases) {
            Err(e) => Err(e),
            Ok((v, true)) => Ok((v, true)),
            Ok((v, false)) => match event_outcome(events.last(), seq_name, num_bases) {
                Err(e) => Err(e),
                Ok(o) => Ok((after_event(v, events.last(), seq_name, num_bases), stops(o))),
            },
        }
    }
}

/// Event `e` is a record of chromosome `seq_name` at 0-based site `p`.
pub open spec fn contributes(e: SourceEvent, seq_name: Seq<u8>, p: usize) -> bool {
    match e {
        SourceEvent::RecordReady(r) => r.chrom@ == seq_name && r.pos == p + 1,
        _ => false,
    }
}

/// The reference allele of a record event.
pub open spec fn reference_of(e: SourceEvent) -> Seq<u8> {
    match e {
        SourceEvent::RecordReady(r) => r.reference@,
        _ => Seq::empty(),
    }
}

/// Each site's allele set holds the reference allele of some record that
/// contributed to it.
pub open spec fn references_recorded(events: Seq<SourceEvent>, seq_name: Seq<u8>, v: IndexView) -> bool {
    forall|p: usize| #[trigger]
        v.sites.contains_key(p) ==> exists|i: int|
            0 <= i < events.len() && contributes(events[i], seq_name, p) && v.sites[p].contains(
                reference_of(#[trigger] events[i]),
            )
}

/// Law: after ingestion, the allele set at every site holds the reference
/// allele of a record that was read at that site.
pub proof fn lemma_references_recorded(events: Seq<SourceEvent>, seq_name: Seq<u8>, num_bases: usize)
    ensures
        ingest(events, seq_name, num_bases as nat) matches Ok((v, _)) ==> references_recorded(
            events,
            seq_name,
            v,
        ),
    decreases events.len(),
{
    if events.len() > 0 {
        let prev = events.drop_last();
        lemma_references_recorded(prev, seq_name, num_bases);
        if let Ok((v0, false)) = ingest(prev, seq_name, num_bases as nat) {
            if let Ok(o) = event_outcome(events.last(), seq_name, num_bases as nat) {
                let v = after_event(v0, events.last(), seq_name, num_bases as nat);
                let n = events.len() - 1;
                assert forall|p: usize| #[trigger] v.sites.contains_key(p) implies exists|i: int|
                    0 <= i < events.len() && contributes(events[i], seq_name, p)
                        && v.sites[p].contains(reference_of(#[trigger] events[i])) by {
                    if let SourceEvent::RecordReady(r) = events.last() {
                        if o == Ingest::Indexed && p == (r.pos - 1) as usize {
                            assert(contributes(events[n], seq_name, p));
                            assert(v.sites[p].contains(reference_of(events[n])));
                        } else {
                            let i = choose|i: int|
                                0 <= i < prev.len() && contributes(prev[i], seq_name, p)
                                    && v0.sites[p].contains(reference_of(#[trigger] prev[i]));
                            assert(events[i] == prev[i]);
                        }
                    } else {
                        let i = choose|i: int|
                            0 <= i < prev.len() && contributes(prev[i], seq_name, p)
                                && v0.sites[p].contains(reference_of(#[trigger] prev[i]));
                        assert(events[i] == prev[i]);
                    }
                }
            }
        } else {
            if let Ok((v0, true)) = ingest(prev, seq_name, num_bases as nat) {
                assert forall|p: usize| #[trigger] v0.sites.contains_key(p) implies exists|i: int|
                    0 <= i < events.len() && contributes(events[i], seq_name, p)
                        && v0.sites[p].contains(reference_of(#[trigger] events[i])) by {
                    let i = choose|i: int|
                        0 <= i < prev.len() && contributes(prev[i], seq_name, p)
                            && v0.sites[p].contains(reference_of(#[trigger] prev[i]));
                    assert(events[i] == prev[i]);
                }
            }
        }
    }
}

fn copy_bytes(v: &U8Vec) -> (r: U8Vec)
    ensures
        r@ == v@,
{
    let r = v.clone();
    proof {
        assert(r@ =~= v@);
    }
    r
}

/// Records one variant record in the index.
pub fn index_record(record: &VariantRecord, seq_name: &[u8], num_bases: usize, index: &mut Index) -> (r:
    Result<Ingest, IndexError>)
    requires
        old(index).wf(num_bases as nat),
    ensures
        r == record_outcome(*record, seq_name@, num_bases as nat),
        r == Ok::<Ingest, IndexError>(Ingest::Indexed) ==> final(index)@ == with_site(
            old(index)@,
            (record.pos - 1) as usize,
            candidates(*record),
        ),
        r != Ok::<Ingest, IndexError>(Ingest::Indexed) ==> final(index)@ == old(index)@,
        final(index).wf(num_bases as nat),
{
    match compare_bytes(record.chrom.as_slice(), seq_name) {
        Ordering::Equal => {},
        _ => {
            return Ok(Ingest::Ignored);
        },
    }
    if record.pos == 0 {
        return Err(IndexError::ZeroPosition);
    }
    if record.pos - 1 >= num_bases as u64 {
        return Ok(Ingest::Overrun);
    }
    let p = (record.pos - 1) as usize;
    let ghost old_index = *index;
    let ghost cands = candidates(*record);
    let (mut set, fresh): (Vec<U8Vec>, bool) = match index.data.remove(&p) {
        Some(v) => (v, false),
        None => (Vec::new(), true),
    };
    let ghost base = views_of(set@).to_set();
    proof {
        if old_index.data@.contains_key(p) {
            assert(views_of(set@) == old_index.alleles_at(p));
        } else {
            assert(views_of(set@) =~= Seq::<Seq<u8>>::empty());
            assert(base =~= Set::<Seq<u8>>::empty());
        }
    }
    insert_allele(&mut set, copy_bytes(&record.reference));
    let n = record.alts.len();
    let mut k: usize = 0;
    while k < n
        invariant
            n == record.alts@.len(),
            k <= n,
            strictly_sorted(views_of(set@)),
            views_of(set@).to_set() == base.insert(record.reference@).union(
                views_of(record.alts@.take(k as int)).to_set(),
            ),
        decreases n - k,
    {
        let ghost before = views_of(set@).to_set();
        insert_allele(&mut set, copy_bytes(&record.alts[k]));
        proof {
            assert(views_of(record.alts@.take(k + 1)) =~= views_of(record.alts@.take(k as int)).push(
                record.alts@[k as int]@,
            ));
            let s0 = views_of(record.alts@.take(k as int));
            assert(s0.push(record.alts@[k as int]@).to_set() =~= s0.to_set().insert(
                record.alts@[k as int]@,
            )) by {
                assert forall|x: Seq<u8>| #[trigger]
                    s0.push(record.alts@[k as int]@).contains(x) implies s0.contains(x) || x
                    == record.alts@[k as int]@ by {
                    let j = choose|j: int|
                        0 <= j < s0.len() + 1 && s0.push(record.alts@[k as int]@)[j] == x;
                    if j < s0.len() {
                        assert(s0[j] == x);
                    }
                }
                assert forall|x: Seq<u8>| s0.contains(x) implies #[trigger] s0.push(
                    record.alts@[k as int]@,
                ).contains(x) by {
                    let j = choose|j: int| 0 <= j < s0.len() && s0[j] == x;
                    assert(s0.push(record.alts@[k as int]@)[j] == x);
                }
                assert(s0.push(record.alts@[k as int]@)[s0.len() as int] == record.alts@[k as int]@);
            }
            assert(views_of(set@).to_set() =~= base.insert(record.reference@).union(
                views_of(record.alts@.take(k + 1)).to_set(),
            ));
        }
        k = k + 1;
    }
    proof {
        assert(record.alts@.take(n as int) =~= record.alts@);
        assert(views_of(set@).to_set() =~= base.union(cands));
        if !old_index.data@.contains_key(p) {
            assert(base.union(cands) =~= cands);
        }
    }
    if fresh {
        index.positions.push(p);
    }
    index.data.insert(p, set);
    proof {
        let new_view = with_site(old_index@, p, cands);
        assert(index@.sites =~= new_view.sites);
        assert(index@.positions =~= new_view.positions);
        assert forall|q: usize| #[trigger]
            index.data@.contains_key(q) <==> index.positions@.contains(q) by {
            if q != p && old_index.positions@.contains(q) {
                let j = choose|j: int| 0 <= j < old_index.positions@.len() && old_index.positions@[j] == q;
                assert(index.positions@[j] == q);
            }
            if index.positions@.contains(q) && q != p {
                let j = choose|j: int| 0 <= j < index.positions@.len() && index.positions@[j] == q;
                if j < old_index.positions@.len() {
                    assert(old_index.positions@[j] == q);
                }
            }
            if q == p && !old_index.data@.contains_key(p) {
                assert(index.positions@[old_index.positions@.len() as int] == p);
            }
        }
        assert forall|q: usize| #[trigger] index.data@.contains_key(q) implies {
            &&& q < num_bases
            &&& index.alleles_at(q).len() > 0
            &&& strictly_sorted(index.alleles_at(q))
        } by {
            if q == p {
                assert(views_of(index.data@[p]@).to_set().contains(record.reference@));
            } else {
                assert(index.alleles_at(q) == old_index.alleles_at(q));
            }
        }
    }
    Ok(Ingest::Indexed)
}

/// Handles one event of the variant source.
pub fn index_event(event: &SourceEvent, seq_name: &[u8], num_bases: usize, index: &mut Index) -> (r:
    Result<Ingest, IndexError>)
    requires
        old(index).wf(num_bases as nat),
    ensures
        r == event_outcome(*event, seq_name@, num_bases as nat),
        final(index)@ == after_event(old(index)@, *event, seq_name@, num_bases as nat),
        final(index).wf(num_bases as nat),
{
    match event {
        SourceEvent::RecordReady(record) => index_record(record, seq_name, num_bases, index),
        SourceEvent::DecodeError => Ok(Ingest::Skipped),
        SourceEvent::EndOfStream => Ok(Ingest::Finished),
    }
}

/// Once ingestion has stopped or failed, later events change nothing.
proof fn lemma_ingest_settled(events: Seq<SourceEvent>, seq_name: Seq<u8>, num_bases: nat, k: int)
    requires
        0 <= k <= events.len(),
        !(ingest(events.take(k), seq_name, num_bases) matches Ok((_, false))),
    ensures
        ingest(events, seq_name, num_bases) == ingest(events.take(k), seq_name, num_bases),
    decreases events.len(),
{
    if events.len() > k {
        assert(events.drop_last().take(k) =~= events.take(k));
        lemma_ingest_settled(events.drop_last(), seq_name, num_bases, k);
    } else {
        assert(events.take(k) =~= events);
    }
}

/// Builds the index from a stream of events, reading until the end of the
/// stream or a record past the end of the reference.
pub fn loop_records(seq_name: &[u8], events: &Vec<SourceEvent>, num_bases: usize) -> (r: Result<
    Index,
    IndexError,
>)
    ensures
        match r {
            Ok(idx) => {
                &&& ingest(events@, seq_name@, num_bases as nat) is Ok
                &&& ingest(events@, seq_name@, num_bases as nat)->Ok_0.0 == idx@
                &&& idx.wf(num_bases as nat)
                &&& references_recorded(events@, seq_name@, idx@)
            },
            Err(e) => ingest(events@, seq_name@, num_bases as nat) == Err::<(IndexView, bool), IndexError>(e),
        },
{
    let mut index = Index::new();
    let n = events.len();
    let mut k: usize = 0;
    let mut running = true;
    proof {
        assert(events@.take(0) =~= Seq::<SourceEvent>::empty());
        assert(index@ =~= empty_view());
    }
    while running && k < n
        invariant
            n == events@.len(),
            k <= n,
            index.wf(num_bases as nat),
            ingest(events@.take(k as int), seq_name@, num_bases as nat) == Ok::<(IndexView, bool), IndexError>(
                (index@, !running),
            ),
        decreases n - k,
    {
        let ghost v0 = index@;
        let res = index_event(&events[k], seq_name, num_bases, &mut index);
        proof {
            assert(events@.take(k + 1).drop_last() =~= events@.take(k as int));
            assert(events@.take(k + 1).last() == events@[k as int]);
        }
        match res {
            Ok(Ingest::Overrun) | Ok(Ingest::Finished) => {
                running = false;
            },
            Ok(_) => {},
            Err(e) => {
                proof {
                    lemma_ingest_settled(events@, seq_name@, num_bases as nat, k + 1);
                }
                return Err(e);
            },
        }
        k = k + 1;
    }
    proof {
        if running {
            assert(events@.take(k as int) =~= events@);
        } else {
            lemma_ingest_settled(events@, seq_name@, num_bases as nat, k as int);
        }
        lemma_references_recorded(events@, seq_name@, num_bases);
    }
    Ok(index)
}

} // verus!
