//! The EDS emitter: reference runs wrapped into lines, alternating with
//! degenerate letters in the order of the index's positions.

use crate::alleles::{bytes_lt, lemma_lt_irreflexive, strictly_sorted, views_of};
use crate::index::ingest;
use crate::types::{AppConfig, Index, SourceEvent, U8Vec, VariantRecord};
use vstd::prelude::*;

verus! {

broadcast use vstd::std_specs::hash::group_hash_axioms;

/// `\n`, which ends a line of a reference run.
pub const NEWLINE: u8 = 10;

/// `{`, which opens a letter.
pub const OPEN: u8 = 123;

/// `}`, which closes a letter.
pub const CLOSE: u8 = 125;

/// `,`, which separates the alleles of a letter.
pub const COMMA: u8 = 44;

/// A run of bytes cut into lines of `w` bytes: each full line is followed by
/// a newline, and what is left over follows unterminated.
pub open spec fn wrapped(s: Seq<u8>, w: nat) -> Seq<u8>
    decreases s.len(),
{
    if w > 0 && s.len() >= w {
        s.take(w as int).push(NEWLINE) + wrapped(s.skip(w as int), w)
    } else {
        s
    }
}

/// The items in order with `sep` between each two neighbours.
pub open spec fn interspersed(items: Seq<Seq<u8>>, sep: Seq<u8>) -> Seq<Seq<u8>>
    decreases items.len(),
{
    if items.len() <= 1 {
        items
    } else {
        seq![items[0], sep] + interspersed(items.drop_first(), sep)
    }
}

/// The alleles a letter shows: the stored ones, and after them the single
/// reference base when no stored allele is exactly that base.
pub open spec fn emission_set(alleles: Seq<Seq<u8>>, base: u8) -> Seq<Seq<u8>> {
    if alleles.contains(seq![base]) {
        alleles
    } else {
        alleles.push(seq![base])
    }
}

/// The letter `{a,b,c}` of a site.
pub open spec fn letter(alleles: Seq<Seq<u8>>, base: u8) -> Seq<u8> {
    seq![OPEN] + interspersed(emission_set(alleles, base), seq![COMMA]).flatten() + seq![CLOSE]
}

/// Where the emitter stands before the `k`-th site: the start of the
/// reference, then the coordinate of the site before.
pub open spec fn cursor_before(positions: Seq<usize>, k: int) -> int {
    if k <= 0 {
        0
    } else {
        positions[k - 1] as int
    }
}

/// The reference run before the `k`-th letter, from the cursor up to the
/// site; empty where the site lies before the cursor.
pub open spec fn solid_before(seq: Seq<u8>, positions: Seq<usize>, k: int) -> Seq<u8> {
    let c = cursor_before(positions, k);
    let p = positions[k] as int;
    if p < c {
        Seq::empty()
    } else {
        seq.subrange(c, p)
    }
}

/// The reference run after the last letter.
pub open spec fn solid_after(seq: Seq<u8>, positions: Seq<usize>) -> Seq<u8> {
    seq.subrange(cursor_before(positions, positions.len() as int), seq.len() as int)
}

/// The text of the `k`-th site: its reference run, wrapped and ended by a
/// newline, then its letter.
pub open spec fn site_text(
    seq: Seq<u8>,
    data: Map<usize, Seq<Seq<u8>>>,
    positions: Seq<usize>,
    k: int,
    w: nat,
) -> Seq<u8> {
    let p = positions[k];
    wrapped(solid_before(seq, positions, k), w).push(NEWLINE) + letter(data[p], seq[p as int])
}

/// The text of the first `k` sites.
pub open spec fn sites_text(
    seq: Seq<u8>,
    data: Map<usize, Seq<Seq<u8>>>,
    positions: Seq<usize>,
    k: int,
    w: nat,
) -> Seq<u8>
    decreases k,
{
    if k <= 0 {
        Seq::empty()
    } else {
        sites_text(seq, data, positions, k - 1, w) + site_text(seq, data, positions, k - 1, w)
    }
}

/// The whole EDS: every site's text, then the last reference run, wrapped.
pub open spec fn eds_text(
    seq: Seq<u8>,
    data: Map<usize, Seq<Seq<u8>>>,
    positions: Seq<usize>,
    w: nat,
) -> Seq<u8> {
    sites_text(seq, data, positions, positions.len() as int, w) + wrapped(
        solid_after(seq, positions),
        w,
    )
}

proof fn lemma_interspersed_push(items: Seq<Seq<u8>>, sep: Seq<u8>, x: Seq<u8>)
    requires
        items.len() > 0,
    ensures
        interspersed(items.push(x), sep) == interspersed(items, sep) + seq![sep, x],
    decreases items.len(),
{
    if items.len() == 1 {
        let ip = items.push(x);
        assert(ip[0] == items[0]);
        assert(ip.drop_first() =~= seq![x]);
        assert(interspersed(seq![x], sep) == seq![x]);
        assert(interspersed(ip, sep) =~= seq![items[0], sep, x]);
        assert(interspersed(items, sep) == items);
        assert(items =~= seq![items[0]]);
        assert(interspersed(items, sep) + seq![sep, x] =~= seq![items[0], sep, x]);
    } else {
        assert(items.push(x).drop_first() =~= items.drop_first().push(x));
        lemma_interspersed_push(items.drop_first(), sep, x);
        assert(interspersed(items.push(x), sep) =~= interspersed(items, sep) + seq![sep, x]);
    }
}

/// Relies on itertools::intersperse: it yields the items in order, with a
/// copy of `sep` between each two neighbours.
#[verifier::external_body]
fn intersperse_alleles(items: &Vec<U8Vec>, sep: &U8Vec) -> (r: Vec<U8Vec>)
    ensures
        views_of(r@) == interspersed(views_of(items@), sep@),
{
    itertools::intersperse(items.iter().cloned(), sep.clone()).collect()
}

/// Appends `s[start..end)`.
fn push_bytes(out: &mut Vec<u8>, s: &[u8], start: usize, end: usize)
    requires
        start <= end <= s@.len(),
    ensures
        final(out)@ == old(out)@ + s@.subrange(start as int, end as int),
{
    let mut i = start;
    while i < end
        invariant
            start <= i <= end <= s@.len(),
            out@ == old(out)@ + s@.subrange(start as int, i as int),
        decreases end - i,
    {
        out.push(s[i]);
        assert(s@.subrange(start as int, i + 1) =~= s@.subrange(start as int, i as int).push(
            s@[i as int],
        ));
        i = i + 1;
    }
}

/// Appends `s[start..end)` cut into lines of `w` bytes.
fn push_wrapped(out: &mut Vec<u8>, s: &[u8], start: usize, end: usize, w: usize)
    requires
        start <= end <= s@.len(),
        w >= 1,
    ensures
        final(out)@ == old(out)@ + wrapped(s@.subrange(start as int, end as int), w as nat),
{
    let mut i = start;
    while end - i >= w
        invariant
            start <= i <= end <= s@.len(),
            w >= 1,
            out@ + wrapped(s@.subrange(i as int, end as int), w as nat) == old(out)@ + wrapped(
                s@.subrange(start as int, end as int),
                w as nat,
            ),
        decreases end - i,
    {
        let ghost rest = s@.subrange(i as int, end as int);
        let ghost out0 = out@;
        push_bytes(out, s, i, i + w);
        out.push(NEWLINE);
        proof {
            assert(rest.take(w as int) =~= s@.subrange(i as int, i + w));
            assert(rest.skip(w as int) =~= s@.subrange(i + w, end as int));
            assert(out@ =~= out0 + rest.take(w as int).push(NEWLINE));
            assert(out0 + wrapped(rest, w as nat) =~= out@ + wrapped(
                s@.subrange(i + w, end as int),
                w as nat,
            ));
        }
        i = i + w;
    }
    push_bytes(out, s, i, end);
}

/// Whether some allele is exactly the single byte `base`.
fn has_single_base(alleles: &Vec<U8Vec>, base: u8) -> (r: bool)
    ensures
        r == views_of(alleles@).contains(seq![base]),
{
    let n = alleles.len();
    let mut k: usize = 0;
    while k < n
        invariant
            n == alleles@.len(),
            k <= n,
            forall|j: int| 0 <= j < k ==> views_of(alleles@)[j] != seq![base],
        decreases n - k,
    {
        if alleles[k].len() == 1 && alleles[k][0] == base {
            proof {
                assert(views_of(alleles@)[k as int] =~= seq![base]);
            }
            return true;
        }
        proof {
            if views_of(alleles@)[k as int] == seq![base] {
                assert(alleles@[k as int]@[0] == base);
            }
        }
        k = k + 1;
    }
    false
}

/// Appends the letter of a site with the stored `alleles` and the reference
/// base `base`.
fn push_letter(out: &mut Vec<u8>, alleles: &Vec<U8Vec>, base: u8)
    requires
        alleles@.len() > 0,
    ensures
        final(out)@ == old(out)@ + letter(views_of(alleles@), base),
{
    let found = has_single_base(alleles, base);
    let sep: U8Vec = vec![COMMA];
    assert(sep@ =~= seq![COMMA]);
    let pieces = intersperse_alleles(alleles, &sep);
    let ghost pv = views_of(pieces@);
    out.push(OPEN);
    let n = pieces.len();
    let mut k: usize = 0;
    while k < n
        invariant
            n == pieces@.len(),
            pv == views_of(pieces@),
            k <= n,
            out@ == old(out)@ + seq![OPEN] + pv.take(k as int).flatten(),
        decreases n - k,
    {
        push_bytes(out, pieces[k].as_slice(), 0, pieces[k].len());
        proof {
            assert(pieces@[k as int]@.subrange(0, pieces@[k as int]@.len() as int) =~= pv[k as int]);
            assert(pv.take(k + 1) =~= pv.take(k as int).push(pv[k as int]));
            pv.take(k as int).lemma_flatten_push(pv[k as int]);
        }
        k = k + 1;
    }
    proof {
        assert(pv.take(n as int) =~= pv);
    }
    if !found {
        out.push(COMMA);
        out.push(base);
        proof {
            let items = views_of(alleles@);
            lemma_interspersed_push(items, seq![COMMA], seq![base]);
            vstd::seq_lib::lemma_flatten_concat(
                interspersed(items, seq![COMMA]),
                seq![seq![COMMA], seq![base]],
            );
            let one = seq![seq![COMMA]];
            one.lemma_flatten_singleton();
            one.lemma_flatten_push(seq![base]);
            assert(one.push(seq![base]) =~= seq![seq![COMMA], seq![base]]);
            assert(seq![seq![COMMA], seq![base]].flatten() =~= seq![COMMA, base]);
            assert(emission_set(items, base) == items.push(seq![base]));
            assert(out@ =~= old(out)@ + seq![OPEN] + interspersed(
                emission_set(items, base),
                seq![COMMA],
            ).flatten());
        }
    } else {
        proof {
            assert(emission_set(views_of(alleles@), base) == views_of(alleles@));
        }
    }
    out.push(CLOSE);
    proof {
        assert(out@ =~= old(out)@ + letter(views_of(alleles@), base));
    }
}

/// Renders the EDS of reference `seq` (of `num_bases` bases) and its
/// variant index, with reference runs wrapped at the configured line length.
/// Every run, the last one included, is cut into lines of that length; a
/// run before a letter ends with a newline, the last run does not.
pub fn write_eds(config: &AppConfig, num_bases: usize, seq: &[u8], index: &Index) -> (out: Vec<u8>)
    requires
        num_bases == seq@.len(),
        index.wf(num_bases as nat),
        config.output_line_length >= 1,
    ensures
        out@ == eds_text(
            seq@,
            index.allele_map(),
            index.positions@,
            config.output_line_length as nat,
        ),
{
    let w = config.output_line_length;
    let ghost data = index.allele_map();
    let ghost positions = index.positions@;
    let mut out: Vec<u8> = Vec::new();
    let mut cursor: usize = 0;
    let n = index.positions.len();
    let mut k: usize = 0;
    while k < n
        invariant
            n == positions.len(),
            positions == index.positions@,
            data == index.allele_map(),
            index.wf(num_bases as nat),
            num_bases == seq@.len(),
            w == config.output_line_length,
            w >= 1,
            k <= n,
            cursor == cursor_before(positions, k as int),
            cursor <= num_bases,
            out@ == sites_text(seq@, data, positions, k as int, w as nat),
        decreases n - k,
    {
        let p = index.positions[k];
        proof {
            assert(positions.contains(p));
            assert(index.data@.contains_key(p));
        }
        let end = if p < cursor {
            cursor
        } else {
            p
        };
        let ghost out0 = out@;
        push_wrapped(&mut out, seq, cursor, end, w);
        out.push(NEWLINE);
        let alleles = match index.data.get(&p) {
            Some(a) => a,
            None => {
                return out;
            },
        };
        push_letter(&mut out, alleles, seq[p]);
        proof {
            assert(data[p] == views_of(alleles@));
            if p < cursor {
                assert(seq@.subrange(cursor as int, cursor as int) =~= Seq::<u8>::empty());
            }
            assert(out@ =~= out0 + site_text(seq@, data, positions, k as int, w as nat));
        }
        cursor = p;
        k = k + 1;
    }
    push_wrapped(&mut out, seq, cursor, num_bases, w);
    proof {
        assert(seq@.subrange(cursor as int, num_bases as int) == solid_after(seq@, positions));
    }
    out
}

/// The reference runs of an EDS in order: the run before each letter, then
/// the run after the last.
pub open spec fn solid_runs(seq: Seq<u8>, positions: Seq<usize>) -> Seq<Seq<u8>> {
    Seq::new(positions.len() + 1, |k: int| if k < positions.len() {
        solid_before(seq, positions, k)
    } else {
        solid_after(seq, positions)
    })
}

/// The bytes of `s` other than newlines.
pub open spec fn without_newlines(s: Seq<u8>) -> Seq<u8> {
    s.filter(|b: u8| b != NEWLINE)
}

proof fn lemma_runs_prefix(seq: Seq<u8>, positions: Seq<usize>, k: int)
    requires
        0 <= k <= positions.len(),
        forall|i: int, j: int| 0 <= i < j < positions.len() ==> positions[i] <= positions[j],
        forall|i: int| 0 <= i < positions.len() ==> positions[i] < seq.len(),
    ensures
        solid_runs(seq, positions).take(k).flatten() == seq.subrange(0, cursor_before(positions, k)),
    decreases k,
{
    let runs = solid_runs(seq, positions);
    if k == 0 {
        assert(runs.take(0) =~= Seq::<Seq<u8>>::empty());
        assert(seq.subrange(0, 0) =~= Seq::<u8>::empty());
    } else {
        lemma_runs_prefix(seq, positions, k - 1);
        assert(runs.take(k) =~= runs.take(k - 1).push(runs[k - 1]));
        runs.take(k - 1).lemma_flatten_push(runs[k - 1]);
        let c = cursor_before(positions, k - 1);
        if k >= 2 {
            assert(positions[k - 2] <= positions[k - 1]);
        }
        assert(seq.subrange(0, c) + seq.subrange(c, positions[k - 1] as int) =~= seq.subrange(
            0,
            positions[k - 1] as int,
        ));
    }
}

/// Law: where the sites are listed in non-decreasing order, the reference
/// runs of the EDS joined are the reference itself, so that exactly
/// `seq.len()` reference bytes stand outside the letters: no letter consumes
/// a reference base.
pub proof fn lemma_solid_runs_cover_reference(seq: Seq<u8>, index: Index)
    requires
        index.wf(seq.len()),
        forall|i: int, j: int|
            0 <= i < j < index.positions@.len() ==> index.positions@[i] <= index.positions@[j],
    ensures
        solid_runs(seq, index.positions@).flatten() == seq,
        solid_runs(seq, index.positions@).flatten().len() == seq.len(),
{
    let positions = index.positions@;
    let n = positions.len() as int;
    let runs = solid_runs(seq, positions);
    assert forall|i: int| 0 <= i < positions.len() implies positions[i] < seq.len() by {
        assert(positions.contains(positions[i]));
        assert(index.data@.contains_key(positions[i]));
    }
    lemma_runs_prefix(seq, positions, n);
    assert(runs =~= runs.take(n).push(runs[n]));
    runs.take(n).lemma_flatten_push(runs[n]);
    let c = cursor_before(positions, n);
    assert(seq.subrange(0, c) + seq.subrange(c, seq.len() as int) =~= seq);
}

/// Law: line wrapping adds newlines and nothing else: a run and its wrapped
/// form agree once newlines are taken out.
pub proof fn lemma_wrapping_adds_only_newlines(s: Seq<u8>, w: nat)
    ensures
        without_newlines(wrapped(s, w)) == without_newlines(s),
    decreases s.len(),
{
    if w > 0 && s.len() >= w {
        let (head, rest) = (s.take(w as int), s.skip(w as int));
        lemma_wrapping_adds_only_newlines(rest, w);
        let keep = |b: u8| b != NEWLINE;
        Seq::filter_distributes_over_add(head.push(NEWLINE), wrapped(rest, w), keep);
        Seq::filter_distributes_over_add(head, rest, keep);
        Seq::filter_distributes_over_add(head, seq![NEWLINE], keep);
        assert(head.push(NEWLINE) =~= head + seq![NEWLINE]);
        assert(seq![NEWLINE].filter(keep) =~= Seq::<u8>::empty()) by {
            reveal_with_fuel(Seq::filter, 2);
            assert(seq![NEWLINE].drop_last() =~= Seq::<u8>::empty());
        }
        assert(head + rest =~= s);
        assert(head.push(NEWLINE).filter(keep) =~= head.filter(keep));
    }
}

/// A solid run: a slice of the reference, line-wrapped, perhaps ended by a
/// newline.
pub open spec fn is_solid(t: Seq<u8>, seq: Seq<u8>, w: nat) -> bool {
    exists|i: int, j: int|
        0 <= i <= j <= seq.len() && (t == #[trigger] wrapped(seq.subrange(i, j), w) || t
            == wrapped(seq.subrange(i, j), w).push(NEWLINE))
}

/// A degenerate letter: `{`, one or more alleles joined by `,`, then `}`.
pub open spec fn is_letter(t: Seq<u8>) -> bool {
    exists|alleles: Seq<Seq<u8>>|
        alleles.len() > 0 && t == seq![OPEN] + (#[trigger] interspersed(alleles, seq![COMMA])).flatten()
            + seq![CLOSE]
}

/// `solids[0] letters[0] solids[1] ... letters[k-1] solids[k]`.
pub open spec fn alternating(solids: Seq<Seq<u8>>, letters: Seq<Seq<u8>>, k: int) -> Seq<u8>
    decreases k,
{
    if k <= 0 {
        solids[0]
    } else {
        alternating(solids, letters, k - 1) + letters[k - 1] + solids[k]
    }
}

/// The text is `SOLID ( LETTER SOLID )*` over the reference `seq`.
pub open spec fn matches_eds_grammar(t: Seq<u8>, seq: Seq<u8>, w: nat) -> bool {
    exists|solids: Seq<Seq<u8>>, letters: Seq<Seq<u8>>|
        {
            &&& solids.len() == letters.len() + 1
            &&& forall|k: int| 0 <= k < solids.len() ==> is_solid(#[trigger] solids[k], seq, w)
            &&& forall|k: int| 0 <= k < letters.len() ==> is_letter(#[trigger] letters[k])
            &&& t == #[trigger] alternating(solids, letters, letters.len() as int)
        }
}

proof fn lemma_sites_alternate(
    seq: Seq<u8>,
    data: Map<usize, Seq<Seq<u8>>>,
    positions: Seq<usize>,
    w: nat,
    solids: Seq<Seq<u8>>,
    letters: Seq<Seq<u8>>,
    k: int,
)
    requires
        0 <= k <= positions.len(),
        solids.len() == positions.len() + 1,
        letters.len() == positions.len(),
        forall|i: int|
            0 <= i < positions.len() ==> solids[i] == wrapped(solid_before(seq, positions, i), w).push(
                NEWLINE,
            ) && letters[i] == letter(data[positions[i]], seq[positions[i] as int]),
    ensures
        sites_text(seq, data, positions, k, w) + solids[k] == alternating(solids, letters, k),
    decreases k,
{
    if k > 0 {
        lemma_sites_alternate(seq, data, positions, w, solids, letters, k - 1);
        assert(sites_text(seq, data, positions, k, w) + solids[k] =~= sites_text(
            seq,
            data,
            positions,
            k - 1,
            w,
        ) + solids[k - 1] + letters[k - 1] + solids[k]);
    } else {
        assert(sites_text(seq, data, positions, 0, w) + solids[0] =~= solids[0]);
    }
}

/// Law: the EDS of a well-formed index is `SOLID ( LETTER SOLID )*`: wrapped
/// slices of the reference alternating with letters of one or more alleles.
pub proof fn lemma_eds_grammar(seq: Seq<u8>, index: Index, w: nat)
    requires
        index.wf(seq.len()),
    ensures
        matches_eds_grammar(eds_text(seq, index.allele_map(), index.positions@, w), seq, w),
{
    let positions = index.positions@;
    let data = index.allele_map();
    let n = positions.len() as int;
    let solids = Seq::new((n + 1) as nat, |k: int| if k < n {
        wrapped(solid_before(seq, positions, k), w).push(NEWLINE)
    } else {
        wrapped(solid_after(seq, positions), w)
    });
    let letters = Seq::new(n as nat, |k: int| letter(data[positions[k]], seq[positions[k] as int]));
    assert forall|k: int| 0 <= k < n implies positions[k] < seq.len() && data[positions[k]].len()
        > 0 by {
        assert(positions.contains(positions[k]));
        assert(index.data@.contains_key(positions[k]));
    }
    assert forall|k: int| 0 <= k < solids.len() implies is_solid(#[trigger] solids[k], seq, w) by {
        let c = cursor_before(positions, k);
        if k > 0 {
            assert(positions[k - 1] < seq.len());
        }
        if k < n {
            let p = positions[k] as int;
            if p < c {
                assert(solid_before(seq, positions, k) =~= seq.subrange(c, c));
                assert(solids[k] == wrapped(seq.subrange(c, c), w).push(NEWLINE));
            } else {
                assert(solids[k] == wrapped(seq.subrange(c, p), w).push(NEWLINE));
            }
        } else {
            assert(solids[k] == wrapped(seq.subrange(c, seq.len() as int), w));
        }
    }
    assert forall|k: int| 0 <= k < letters.len() implies is_letter(#[trigger] letters[k]) by {
        let e = emission_set(data[positions[k]], seq[positions[k] as int]);
        assert(e.len() > 0);
        assert(letters[k] == seq![OPEN] + interspersed(e, seq![COMMA]).flatten() + seq![CLOSE]);
    }
    lemma_sites_alternate(seq, data, positions, w, solids, letters, n);
    assert(solids[n] == wrapped(solid_after(seq, positions), w));
    assert(eds_text(seq, data, positions, w) == alternating(solids, letters, letters.len() as int));
}

proof fn lemma_no_newlines_kept(s: Seq<u8>)
    requires
        forall|i: int| 0 <= i < s.len() ==> s[i] != NEWLINE,
    ensures
        without_newlines(s) == s,
    decreases s.len(),
{
    reveal(Seq::filter);
    if s.len() > 0 {
        lemma_no_newlines_kept(s.drop_last());
        assert(s.drop_last().push(s.last()) =~= s);
    }
}

/// A sorted allele sequence that holds one allele only is that allele.
proof fn lemma_single_allele(s: Seq<Seq<u8>>, x: Seq<u8>)
    requires
        strictly_sorted(s),
        s.to_set() == set![x],
    ensures
        s == seq![x],
{
    assert(s.to_set().contains(x));
    assert(s.len() > 0);
    assert(s.to_set().contains(s[0]));
    if s.len() > 1 {
        assert(s.to_set().contains(s[1]));
        assert(bytes_lt(s[0], s[1]));
        lemma_lt_irreflexive(x);
    }
    assert(s =~= seq![x]);
}

/// Law: a lone record at site `p` whose reference allele and only
/// alternative allele are both the reference base there gives, newlines
/// aside, `seq[0..p) { seq[p] } seq[p..)`.
pub proof fn lemma_identity_record_round_trip(
    seq: Seq<u8>,
    seq_name: Seq<u8>,
    r: VariantRecord,
    index: Index,
    w: nat,
)
    requires
        seq.len() <= usize::MAX,
        forall|i: int| 0 <= i < seq.len() ==> seq[i] != NEWLINE,
        1 <= r.pos <= seq.len(),
        r.chrom@ == seq_name,
        r.reference@ == seq![seq[r.pos - 1]],
        r.alts@.len() == 1,
        r.alts@[0]@ == seq![seq[r.pos - 1]],
        index.wf(seq.len()),
        ingest(seq![SourceEvent::RecordReady(r)], seq_name, seq.len()) == Ok::<
            (crate::types::IndexView, bool),
            crate::types::IndexError,
        >((index@, false)),
    ensures
        without_newlines(eds_text(seq, index.allele_map(), index.positions@, w)) == seq.take(
            r.pos - 1,
        ) + seq![OPEN, seq[r.pos - 1], CLOSE] + seq.skip(r.pos - 1),
{
    let p = (r.pos - 1) as usize;
    let b = seq[p as int];
    let events = seq![SourceEvent::RecordReady(r)];
    assert(events.drop_last() =~= Seq::<SourceEvent>::empty());
    assert(events.last() == SourceEvent::RecordReady(r));
    assert(views_of(r.alts@)[0] == seq![b]);
    assert(views_of(r.alts@) =~= seq![seq![b]]);
    assert(views_of(r.alts@).to_set().insert(r.reference@) =~= set![seq![b]]) by {
        assert(seq![seq![b]].to_set() =~= set![seq![b]]) by {
            assert(seq![seq![b]][0] == seq![b]);
        }
    }
    assert(ingest(events.drop_last(), seq_name, seq.len()) == Ok::<
        (crate::types::IndexView, bool),
        crate::types::IndexError,
    >((crate::index::empty_view(), false)));
    assert(crate::index::record_outcome(r, seq_name, seq.len()) == Ok::<
        crate::types::Ingest,
        crate::types::IndexError,
    >(crate::types::Ingest::Indexed));
    assert(index@ == crate::index::with_site(crate::index::empty_view(), p, set![seq![b]]));
    let positions = index.positions@;
    assert(positions =~= seq![p]);
    assert(index.data@.contains_key(p)) by {
        assert(positions[0] == p);
        assert(positions.contains(p));
    }
    assert(index@.sites[p] == set![seq![b]]);
    assert(index@.sites[p] == views_of(index.data@[p]@).to_set());
    assert(index.alleles_at(p).to_set() == set![seq![b]]);
    lemma_single_allele(index.alleles_at(p), seq![b]);
    let data = index.allele_map();
    assert(data[p] == seq![seq![b]]);
    assert(seq![seq![b]].contains(seq![b]) && seq![seq![b]][0] == seq![b]);
    assert(emission_set(data[p], b) == seq![seq![b]]);
    seq![seq![b]].lemma_flatten_singleton();
    assert(letter(data[p], b) =~= seq![OPEN, b, CLOSE]);
    let (head, tail) = (seq.take(p as int), seq.skip(p as int));
    assert(solid_before(seq, positions, 0) =~= head);
    assert(solid_after(seq, positions) =~= tail);
    assert(sites_text(seq, data, positions, 0, w) =~= Seq::<u8>::empty());
    let text = eds_text(seq, data, positions, w);
    assert(text =~= wrapped(head, w) + seq![NEWLINE] + seq![OPEN, b, CLOSE] + wrapped(tail, w));
    let keep = |c: u8| c != NEWLINE;
    Seq::filter_distributes_over_add(
        wrapped(head, w) + seq![NEWLINE] + seq![OPEN, b, CLOSE],
        wrapped(tail, w),
        keep,
    );
    Seq::filter_distributes_over_add(wrapped(head, w) + seq![NEWLINE], seq![OPEN, b, CLOSE], keep);
    Seq::filter_distributes_over_add(wrapped(head, w), seq![NEWLINE], keep);
    lemma_wrapping_adds_only_newlines(head, w);
    lemma_wrapping_adds_only_newlines(tail, w);
    lemma_no_newlines_kept(head);
    lemma_no_newlines_kept(tail);
    lemma_no_newlines_kept(seq![OPEN, b, CLOSE]);
    assert(seq![NEWLINE].filter(keep) =~= Seq::<u8>::empty()) by {
        reveal_with_fuel(Seq::filter, 2);
        assert(seq![NEWLINE].drop_last() =~= Seq::<u8>::empty());
    }
    assert(without_newlines(text) =~= head + seq![OPEN, b, CLOSE] + tail);
}

} // verus!
