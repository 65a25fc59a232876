//! Decoding the binary trace wire formats into resolved, folded stacks.
//!
//! A CPU trace is a sequence of records: one frame-count byte, then that
//! many 8-byte little-endian addresses, innermost frame first. A record is
//! split at unresolved addresses into maximal runs of resolved frames; each
//! run is folded as an independent call-stack with weight one.

use vstd::prelude::*;

use crate::errors::ProfileError;
use crate::folded::FoldedStacks;
use crate::folded::spec_fold;
use crate::symbols::Symbol;
use crate::symbols::SymView;
use crate::symbols::find_symbol;
use crate::symbols::nonoverlapping;
use crate::symbols::spec_resolve;
use crate::symbols::syms_view;

verus! {

/// The eight little-endian bytes at `pos`, read as one value.
pub open spec fn le64_at(data: Seq<u8>, pos: int) -> u64 {
    vstd::bytes::spec_u64_from_le_bytes(data.subrange(pos, pos + 8))
}

/// Reads the 8-byte little-endian value at `pos`, or `None` when fewer
/// than eight bytes remain there.
pub fn next_u64(data: &[u8], pos: usize) -> (r: Option<u64>)
    ensures
        pos + 8 <= data@.len() ==> r == Some(le64_at(data@, pos as int)),
        pos + 8 > data@.len() ==> r is None,
{
    if pos < data.len() && data.len() - pos >= 8 {
        let bytes = &data[pos..pos + 8];
        assert(bytes@ == data@.subrange(pos as int, pos + 8));
        Some(vstd::bytes::u64_from_le_bytes(bytes))
    } else {
        None
    }
}

/// Frame count of the CPU record whose first byte is at `pos`.
pub open spec fn record_frames(data: Seq<u8>, pos: int) -> int {
    data[pos] as int
}

/// Whether the record starting at `pos` ends before end-of-stream.
pub open spec fn record_complete(data: Seq<u8>, pos: int) -> bool {
    pos + 1 + 8 * record_frames(data, pos) <= data.len()
}

/// The record's addresses, innermost frame first.
pub open spec fn record_addrs(data: Seq<u8>, pos: int) -> Seq<u64> {
    Seq::new(record_frames(data, pos) as nat, |j: int| le64_at(data, pos + 1 + 8 * j))
}

/// Every address resolved through the table.
pub open spec fn resolve_all(v: Seq<SymView>, addrs: Seq<u64>) -> Seq<Option<Seq<char>>> {
    Seq::new(addrs.len(), |j: int| spec_resolve(v, addrs[j]))
}

/// Folds one resolved record under the interruption rule: maximal runs of
/// resolved frames are independent call-stacks, each contributing one
/// occurrence; unresolved entries only separate runs and are discarded.
/// `cur` is the run gathered so far.
pub open spec fn fold_record(
    m: Map<Seq<Seq<char>>, u64>,
    frames: Seq<Option<Seq<char>>>,
    cur: Seq<Seq<char>>,
) -> Map<Seq<Seq<char>>, u64>
    decreases frames.len(),
{
    if frames.len() == 0 {
        if cur.len() > 0 {
            spec_fold(m, cur, 1)
        } else {
            m
        }
    } else {
        match frames[0] {
            Some(name) => fold_record(m, frames.drop_first(), cur.push(name)),
            None => fold_record(
                if cur.len() > 0 {
                    spec_fold(m, cur, 1)
                } else {
                    m
                },
                frames.drop_first(),
                Seq::empty(),
            ),
        }
    }
}

/// The whole CPU trace folded from `pos` on, on top of mapping `m`.
pub open spec fn cpu_fold_from(
    data: Seq<u8>,
    v: Seq<SymView>,
    pos: int,
    m: Map<Seq<Seq<char>>, u64>,
) -> Result<Map<Seq<Seq<char>>, u64>, ProfileError>
    decreases data.len() - pos,
{
    if pos >= data.len() {
        Ok(m)
    } else if !record_complete(data, pos) {
        Err(ProfileError::TruncatedRecord { offset: pos as usize })
    } else {
        cpu_fold_from(
            data,
            v,
            pos + 1 + 8 * record_frames(data, pos),
            fold_record(m, resolve_all(v, record_addrs(data, pos)), Seq::empty()),
        )
    }
}

/// Where the CPU trace is first truncated, scanning from `pos`: the
/// framing depends on the bytes alone, never on the symbol table.
pub open spec fn cpu_scan(data: Seq<u8>, pos: int) -> Option<int>
    decreases data.len() - pos,
{
    if pos >= data.len() {
        None
    } else if !record_complete(data, pos) {
        Some(pos)
    } else {
        cpu_scan(data, pos + 1 + 8 * record_frames(data, pos))
    }
}

/// Whether folding errs is decided by the framing scan, whatever the
/// table and the mapping folded onto.
pub proof fn lemma_cpu_fold_err(
    data: Seq<u8>,
    v: Seq<SymView>,
    pos: int,
    m: Map<Seq<Seq<char>>, u64>,
)
    ensures
        match cpu_scan(data, pos) {
            Some(o) => cpu_fold_from(data, v, pos, m) == Err::<Map<Seq<Seq<char>>, u64>,
                ProfileError,
            >(ProfileError::TruncatedRecord { offset: o as usize }),
            None => cpu_fold_from(data, v, pos, m) is Ok,
        },
    decreases data.len() - pos,
{
    if pos >= data.len() {
    } else if !record_complete(data, pos) {
    } else {
        lemma_cpu_fold_err(
            data,
            v,
            pos + 1 + 8 * record_frames(data, pos),
            fold_record(m, resolve_all(v, record_addrs(data, pos)), Seq::empty()),
        );
    }
}

/// Decodes the one CPU stack record starting at `pos`: its frame count,
/// then that many addresses, each resolved through the table (`None` for
/// an address outside every known range). Returns the resolved frames and
/// the offset just past the record, or the truncation error.
pub fn stack_iter(data: &[u8], pos: usize, symbols: &[Symbol]) -> (r: Result<
    (Vec<Option<String>>, usize),
    ProfileError,
>)
    requires
        pos < data@.len(),
    ensures
        r is Err <==> !record_complete(data@, pos as int),
        r is Err ==> r == Err::<(Vec<Option<String>>, usize), ProfileError>(
            ProfileError::TruncatedRecord { offset: pos },
        ),
        r is Ok ==> r->Ok_0.1 == pos + 1 + 8 * record_frames(data@, pos as int),
        r is Ok ==> r->Ok_0.0.deep_view().len() == record_frames(data@, pos as int),
        r is Ok && nonoverlapping(syms_view(symbols@)) ==> r->Ok_0.0.deep_view() == resolve_all(
            syms_view(symbols@),
            record_addrs(data@, pos as int),
        ),
{
    let ghost v = syms_view(symbols@);
    let k: usize = data[pos] as usize;
    let rem: usize = data.len() - (pos + 1);
    if rem < 8 * k {
        assert(!record_complete(data@, pos as int));
        return Err(ProfileError::TruncatedRecord { offset: pos });
    }
    assert(record_complete(data@, pos as int));
    let ghost addrs = record_addrs(data@, pos as int);
    let mut frames: Vec<Option<String>> = Vec::new();
    let mut j: usize = 0;
    while j < k
        invariant
            0 <= j <= k,
            data@.len() <= usize::MAX,
            pos + 1 + 8 * k <= data@.len(),
            k == record_frames(data@, pos as int),
            v == syms_view(symbols@),
            addrs == record_addrs(data@, pos as int),
            frames@.len() == j,
            nonoverlapping(v) ==> frames.deep_view() =~= resolve_all(v, addrs).take(j as int),
        decreases k - j,
    {
        let at: usize = pos + 1 + 8 * j;
        assert(at + 8 <= data@.len());
        let addr: u64 = next_u64(data, at).unwrap();
        assert(addr == addrs[j as int]);
        let resolved = match find_symbol(symbols, addr) {
            Some(name) => Some(name.to_owned()),
            None => None,
        };
        proof {
            if nonoverlapping(v) {
                assert(resolved.deep_view() == spec_resolve(v, addrs[j as int]));
            }
        }
        frames.push(resolved);
        proof {
            if nonoverlapping(v) {
                assert(frames.deep_view() =~= resolve_all(v, addrs).take(j + 1));
            }
        }
        j += 1;
    }
    proof {
        if nonoverlapping(v) {
            assert(resolve_all(v, addrs).take(k as int) =~= resolve_all(v, addrs));
        }
    }
    Ok((frames, pos + 1 + 8 * k))
}

/// Counts the occurrences of each call-stack in a CPU trace, splitting
/// records at unresolved frames as `fold_record` says. Fails exactly where
/// the stream ends inside a record.
pub fn fold_stacks_cpu(data: &[u8], symbols: &[Symbol]) -> (r: Result<FoldedStacks, ProfileError>)
    ensures
        ({
            let out = cpu_fold_from(
                data@,
                syms_view(symbols@),
                0,
                Map::<Seq<Seq<char>>, u64>::empty(),
            );
            &&& (r is Ok <==> out is Ok)
            &&& (out is Err ==> r == Err::<FoldedStacks, ProfileError>(out->Err_0))
            &&& (r is Ok ==> r->Ok_0.wf())
            &&& (nonoverlapping(syms_view(symbols@)) && out is Ok ==> r->Ok_0@ == out->Ok_0)
        }),
{
    let ghost v = syms_view(symbols@);
    let ghost m0 = Map::<Seq<Seq<char>>, u64>::empty();
    let mut folded = FoldedStacks::new();
    let mut pos: usize = 0;
    let n = data.len();
    while pos < n
        invariant
            pos <= data@.len(),
            n == data@.len(),
            v == syms_view(symbols@),
            m0 == Map::<Seq<Seq<char>>, u64>::empty(),
            folded.wf(),
            cpu_scan(data@, 0) == cpu_scan(data@, pos as int),
            nonoverlapping(v) ==> cpu_fold_from(data@, v, 0, m0) == cpu_fold_from(
                data@,
                v,
                pos as int,
                folded@,
            ),
        decreases data@.len() - pos,
    {
        let (rec, end) = match stack_iter(data, pos, symbols) {
            Ok(p) => p,
            Err(e) => {
                proof {
                    assert(cpu_scan(data@, pos as int) == Some(pos as int));
                    lemma_cpu_fold_err(data@, v, 0, m0);
                }
                return Err(e);
            },
        };
        let ghost rfr = rec.deep_view();
        let ghost m_before = folded@;
        let mut cur: Vec<String> = Vec::new();
        let mut j: usize = 0;
        proof {
            assert(rfr.skip(0) =~= rfr);
            assert(cur.deep_view() =~= Seq::<Seq<char>>::empty());
        }
        while j < rec.len()
            invariant
                0 <= j <= rec@.len(),
                rfr == rec.deep_view(),
                folded.wf(),
                fold_record(m_before, rfr, Seq::empty()) == fold_record(
                    folded@,
                    rfr.skip(j as int),
                    cur.deep_view(),
                ),
            decreases rec@.len() - j,
        {
            let ghost pre_cur = cur.deep_view();
            let ghost pre_m = folded@;
            proof {
                assert(rfr.skip(j as int)[0] == rfr[j as int]);
                assert(rfr.skip(j as int).drop_first() =~= rfr.skip(j + 1));
            }
            match &rec[j] {
                Some(name) => {
                    cur.push(name.clone());
                    proof {
                        assert(rfr[j as int] == Some(name@));
                        assert(cur.deep_view() =~= pre_cur.push(name@));
                    }
                },
                None => {
                    assert(rfr[j as int] is None);
                    if cur.len() > 0 {
                        folded.fold(cur, 1);
                        cur = Vec::new();
                    }
                    proof {
                        assert(cur.deep_view() =~= Seq::<Seq<char>>::empty());
                    }
                },
            }
            j += 1;
        }
        proof {
            assert(rfr.skip(rec@.len() as int) =~= Seq::<Option<Seq<char>>>::empty());
        }
        if cur.len() > 0 {
            folded.fold(cur, 1);
        }
        proof {
            assert(fold_record(m_before, rfr, Seq::empty()) == folded@);
            assert(record_complete(data@, pos as int));
            assert(cpu_scan(data@, pos as int) == cpu_scan(data@, end as int));
            if nonoverlapping(v) {
                assert(rfr == resolve_all(v, record_addrs(data@, pos as int)));
                assert(cpu_fold_from(data@, v, pos as int, m_before) == cpu_fold_from(
                    data@,
                    v,
                    end as int,
                    folded@,
                ));
            }
        }
        pos = end;
    }
    proof {
        assert(cpu_scan(data@, pos as int) is None);
        lemma_cpu_fold_err(data@, v, 0, m0);
        if nonoverlapping(v) {
            assert(cpu_fold_from(data@, v, pos as int, folded@) == Ok::<
                Map<Seq<Seq<char>>, u64>,
                ProfileError,
            >(folded@));
        }
    }
    Ok(folded)
}

/// Law: a record that resolves to `[A, B, unresolved, C]` contributes one
/// occurrence to the call-stack `[A, B]` and one to `[C]`, and leaves the
/// value held for `[A, B, C]` (or any other key) untouched.
pub proof fn lemma_split_at_unresolved(
    m: Map<Seq<Seq<char>>, u64>,
    a: Seq<char>,
    b: Seq<char>,
    c: Seq<char>,
)
    ensures
        fold_record(m, seq![Some(a), Some(b), None, Some(c)], Seq::empty()) == spec_fold(
            spec_fold(m, seq![a, b], 1),
            seq![c],
            1,
        ),
        forall|k: Seq<Seq<char>>|
            #![trigger m.contains_key(k)]
            k != seq![a, b] && k != seq![c] ==> fold_record(
                m,
                seq![Some(a), Some(b), None, Some(c)],
                Seq::empty(),
            ).contains_key(k) == m.contains_key(k),
        forall|k: Seq<Seq<char>>|
            #![trigger m[k]]
            k != seq![a, b] && k != seq![c] && m.contains_key(k) ==> fold_record(
                m,
                seq![Some(a), Some(b), None, Some(c)],
                Seq::empty(),
            )[k] == m[k],
{
    let f0: Seq<Option<Seq<char>>> = seq![Some(a), Some(b), None, Some(c)];
    let f1: Seq<Option<Seq<char>>> = seq![Some(b), None, Some(c)];
    let f2: Seq<Option<Seq<char>>> = seq![None, Some(c)];
    let f3: Seq<Option<Seq<char>>> = seq![Some(c)];
    let f4: Seq<Option<Seq<char>>> = seq![];
    assert(f0.drop_first() =~= f1);
    assert(f1.drop_first() =~= f2);
    assert(f2.drop_first() =~= f3);
    assert(f3.drop_first() =~= f4);
    assert(Seq::<Seq<char>>::empty().push(a) =~= seq![a]);
    assert(seq![a].push(b) =~= seq![a, b]);
    assert(Seq::<Seq<char>>::empty().push(c) =~= seq![c]);
    let m1 = spec_fold(m, seq![a, b], 1);
    assert(fold_record(m, f0, Seq::empty()) == fold_record(m, f1, seq![a]));
    assert(fold_record(m, f1, seq![a]) == fold_record(m, f2, seq![a, b]));
    assert(fold_record(m, f2, seq![a, b]) == fold_record(m1, f3, Seq::empty()));
    assert(fold_record(m1, f3, Seq::empty()) == fold_record(m1, f4, seq![c]));
    assert(fold_record(m1, f4, seq![c]) == spec_fold(m1, seq![c], 1));
}

} // verus!
