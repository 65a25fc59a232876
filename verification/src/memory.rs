//! Decoding the allocator-event wire format and computing net allocated
//! bytes per call-stack, per allocator.
//!
//! An event is: one allocator-name length byte `L`, `L` name bytes, one
//! opcode byte (0 allocate, 1 reallocate, 2 free), an 8-byte pointer, an
//! 8-byte size, one frame-count byte `k`, then `k` 8-byte little-endian
//! addresses. Unresolved addresses become a placeholder frame name; the
//! interruption rule does not apply here.

use vstd::prelude::*;

use crate::decode::le64_at;
use crate::decode::next_u64;
use crate::errors::ProfileError;
use crate::folded::FoldedStacks;
use crate::folded::fold_many;
use crate::folded::spec_fold;
use crate::symbols::Symbol;
use crate::symbols::SymView;
use crate::symbols::find_symbol;
use crate::symbols::nonoverlapping;
use crate::symbols::spec_resolve;
use crate::symbols::syms_view;

verus! {

/// Mathematical image of one live allocation: the pointer, the call-stack
/// captured when it was first seen, and its current size.
pub ghost struct AllocView {
    pub ptr: u64,
    pub stack: Seq<Seq<char>>,
    pub size: u64,
}

/// Mathematical image of one allocator's pointer-keyed state.
pub ghost struct AllocatorView {
    pub name: Seq<u8>,
    pub allocs: Seq<AllocView>,
}

/// One tracked allocation: pointer, captured stack, current size.
pub struct AllocEntry {
    pub ptr: u64,
    pub stack: Vec<String>,
    pub size: u64,
}

impl View for AllocEntry {
    type V = AllocView;

    open spec fn view(&self) -> AllocView {
        AllocView { ptr: self.ptr, stack: self.stack.deep_view(), size: self.size }
    }
}

/// The tracked state of one allocator, keyed by pointer value.
pub struct AllocatorState {
    pub name: Vec<u8>,
    pub allocs: Vec<AllocEntry>,
}

impl View for AllocatorState {
    type V = AllocatorView;

    open spec fn view(&self) -> AllocatorView {
        AllocatorView { name: self.name@, allocs: allocs_view(self.allocs@) }
    }
}

pub open spec fn allocs_view(s: Seq<AllocEntry>) -> Seq<AllocView> {
    Seq::new(s.len(), |i: int| s[i]@)
}

pub open spec fn states_view(s: Seq<AllocatorState>) -> Seq<AllocatorView> {
    Seq::new(s.len(), |i: int| s[i]@)
}

/// One allocation-mode output: the allocator's name and the net bytes
/// attributed to each call-stack.
#[derive(Debug)]
pub struct AllocatorFolded {
    pub name: Vec<u8>,
    pub stacks: FoldedStacks,
}

/// At most one tracked allocation per pointer.
pub open spec fn wf_allocs(a: Seq<AllocView>) -> bool {
    forall|i: int, j: int| 0 <= i < j < a.len() ==> (#[trigger] a[i]).ptr != (#[trigger] a[j]).ptr
}

/// At most one state per allocator name, each pointer-distinct.
pub open spec fn wf_states(st: Seq<AllocatorView>) -> bool {
    &&& forall|i: int, j: int|
        0 <= i < j < st.len() ==> (#[trigger] st[i]).name != (#[trigger] st[j]).name
    &&& forall|i: int| 0 <= i < st.len() ==> wf_allocs((#[trigger] st[i]).allocs)
}

/// The placeholder frame name standing for an unresolved address.
pub open spec fn unknown_frame() -> Seq<char> {
    "unknown"@
}

/// Addresses resolved through the table, the placeholder replacing every
/// unresolved frame.
pub open spec fn resolve_with_placeholder(v: Seq<SymView>, addrs: Seq<u64>) -> Seq<Seq<char>> {
    Seq::new(
        addrs.len(),
        |j: int|
            match spec_resolve(v, addrs[j]) {
                Some(n) => n,
                None => unknown_frame(),
            },
    )
}

/// Allocator-name length of the event starting at `pos`.
pub open spec fn ev_name_len(data: Seq<u8>, pos: int) -> int {
    data[pos] as int
}

/// Whether the event's fixed-size part (everything before the frame
/// addresses) ends before end-of-stream.
pub open spec fn ev_header_complete(data: Seq<u8>, pos: int) -> bool {
    pos + 19 + ev_name_len(data, pos) <= data.len()
}

pub open spec fn ev_name(data: Seq<u8>, pos: int) -> Seq<u8> {
    data.subrange(pos + 1, pos + 1 + ev_name_len(data, pos))
}

pub open spec fn ev_op(data: Seq<u8>, pos: int) -> u8 {
    data[pos + 1 + ev_name_len(data, pos)]
}

pub open spec fn ev_ptr(data: Seq<u8>, pos: int) -> u64 {
    le64_at(data, pos + 2 + ev_name_len(data, pos))
}

pub open spec fn ev_size(data: Seq<u8>, pos: int) -> u64 {
    le64_at(data, pos + 10 + ev_name_len(data, pos))
}

pub open spec fn ev_frames(data: Seq<u8>, pos: int) -> int {
    data[pos + 18 + ev_name_len(data, pos)] as int
}

/// Whether the whole event ends before end-of-stream.
pub open spec fn ev_complete(data: Seq<u8>, pos: int) -> bool {
    &&& ev_header_complete(data, pos)
    &&& pos + 19 + ev_name_len(data, pos) + 8 * ev_frames(data, pos) <= data.len()
}

/// Offset just past the event.
pub open spec fn ev_end(data: Seq<u8>, pos: int) -> int {
    pos + 19 + ev_name_len(data, pos) + 8 * ev_frames(data, pos)
}

/// The event's captured addresses, innermost frame first.
pub open spec fn ev_addrs(data: Seq<u8>, pos: int) -> Seq<u64> {
    Seq::new(
        ev_frames(data, pos) as nat,
        |j: int| le64_at(data, pos + 19 + ev_name_len(data, pos) + 8 * j),
    )
}

/// One event applied to one allocator's pointer state. A new pointer
/// records the captured stack; a known pointer keeps its original stack
/// and only the size changes — to the event's size on allocate and
/// reallocate, to zero on free.
pub open spec fn upd_allocs(
    a: Seq<AllocView>,
    ptr: u64,
    stack: Seq<Seq<char>>,
    op: u8,
    size: u64,
) -> Seq<AllocView> {
    let nsz: u64 = if op == 2 {
        0u64
    } else {
        size
    };
    if exists|i: int| 0 <= i < a.len() && (#[trigger] a[i]).ptr == ptr {
        let i = choose|i: int| 0 <= i < a.len() && (#[trigger] a[i]).ptr == ptr;
        a.update(i, AllocView { ptr: ptr, stack: a[i].stack, size: nsz })
    } else {
        a.push(AllocView { ptr: ptr, stack: stack, size: nsz })
    }
}

/// One event applied to the per-allocator states: the named allocator's
/// state is updated, a fresh empty state being made the first time a name
/// is seen.
pub open spec fn upd_state(
    st: Seq<AllocatorView>,
    name: Seq<u8>,
    ptr: u64,
    stack: Seq<Seq<char>>,
    op: u8,
    size: u64,
) -> Seq<AllocatorView> {
    if exists|i: int| 0 <= i < st.len() && (#[trigger] st[i]).name == name {
        let i = choose|i: int| 0 <= i < st.len() && (#[trigger] st[i]).name == name;
        st.update(
            i,
            AllocatorView { name: name, allocs: upd_allocs(st[i].allocs, ptr, stack, op, size) },
        )
    } else {
        st.push(
            AllocatorView {
                name: name,
                allocs: upd_allocs(Seq::empty(), ptr, stack, op, size),
            },
        )
    }
}

/// The per-allocator states after every event from `pos` on, starting
/// from `st`; or the first fatal decode error.
pub open spec fn mem_state_from(
    data: Seq<u8>,
    v: Seq<SymView>,
    pos: int,
    st: Seq<AllocatorView>,
) -> Result<Seq<AllocatorView>, ProfileError>
    decreases data.len() - pos,
{
    if pos >= data.len() {
        Ok(st)
    } else if !ev_complete(data, pos) {
        Err(ProfileError::TruncatedRecord { offset: pos as usize })
    } else if ev_op(data, pos) > 2 {
        Err(ProfileError::InvalidOpcode { opcode: ev_op(data, pos), offset: pos as usize })
    } else {
        mem_state_from(
            data,
            v,
            ev_end(data, pos),
            upd_state(
                st,
                ev_name(data, pos),
                ev_ptr(data, pos),
                resolve_with_placeholder(v, ev_addrs(data, pos)),
                ev_op(data, pos),
                ev_size(data, pos),
            ),
        )
    }
}

/// The first fatal error an allocation trace holds, scanning from `pos`:
/// it depends on the bytes alone, never on the symbol table.
pub open spec fn mem_scan(data: Seq<u8>, pos: int) -> Option<ProfileError>
    decreases data.len() - pos,
{
    if pos >= data.len() {
        None
    } else if !ev_complete(data, pos) {
        Some(ProfileError::TruncatedRecord { offset: pos as usize })
    } else if ev_op(data, pos) > 2 {
        Some(ProfileError::InvalidOpcode { opcode: ev_op(data, pos), offset: pos as usize })
    } else {
        mem_scan(data, ev_end(data, pos))
    }
}

/// Whether decoding errs, and with what, is decided by the framing scan,
/// whatever the table and the starting state.
pub proof fn lemma_mem_state_err(
    data: Seq<u8>,
    v: Seq<SymView>,
    pos: int,
    st: Seq<AllocatorView>,
)
    ensures
        match mem_scan(data, pos) {
            Some(e) => mem_state_from(data, v, pos, st) == Err::<Seq<AllocatorView>,
                ProfileError,
            >(e),
            None => mem_state_from(data, v, pos, st) is Ok,
        },
    decreases data.len() - pos,
{
    if pos >= data.len() {
    } else if !ev_complete(data, pos) {
    } else if ev_op(data, pos) > 2 {
    } else {
        lemma_mem_state_err(
            data,
            v,
            ev_end(data, pos),
            upd_state(
                st,
                ev_name(data, pos),
                ev_ptr(data, pos),
                resolve_with_placeholder(v, ev_addrs(data, pos)),
                ev_op(data, pos),
                ev_size(data, pos),
            ),
        );
    }
}

/// The contributions one allocator's final state makes: each pointer's
/// captured stack with its current size.
pub open spec fn contribs(a: Seq<AllocView>) -> Seq<(Seq<Seq<char>>, u64)> {
    Seq::new(a.len(), |i: int| (a[i].stack, a[i].size))
}

/// The net bytes per call-stack of one allocator's final state: group the
/// pointers by captured stack and sum the current sizes.
pub open spec fn fold_allocs(a: Seq<AllocView>) -> Map<Seq<Seq<char>>, u64> {
    fold_many(Map::<Seq<Seq<char>>, u64>::empty(), contribs(a))
}

/// Whether two allocator names are equal byte for byte.
fn bytes_eq(a: &Vec<u8>, b: &Vec<u8>) -> (r: bool)
    ensures
        r == (a@ == b@),
{
    if a.len() != b.len() {
        return false;
    }
    let n = a.len();
    let mut i: usize = 0;
    while i < n
        invariant
            0 <= i <= n,
            n == a@.len() == b@.len(),
            forall|k: int| 0 <= k < i ==> a@[k] == b@[k],
        decreases n - i,
    {
        if a[i] != b[i] {
            return false;
        }
        i += 1;
    }
    proof {
        assert(a@ =~= b@);
    }
    true
}

/// Applies one event to one allocator's pointer state.
#[verifier::loop_isolation(false)]
fn update_allocs(allocs: &mut Vec<AllocEntry>, ptr: u64, stack: Vec<String>, op: u8, size: u64)
    requires
        wf_allocs(allocs_view(old(allocs)@)),
    ensures
        allocs_view(final(allocs)@) == upd_allocs(
            allocs_view(old(allocs)@),
            ptr,
            stack.deep_view(),
            op,
            size,
        ),
        wf_allocs(allocs_view(final(allocs)@)),
{
    let ghost a0 = allocs_view(allocs@);
    let nsz: u64 = if op == 2 {
        0
    } else {
        size
    };
    let n = allocs.len();
    let mut i: usize = 0;
    while i < n
        invariant
            0 <= i <= n,
            n == allocs@.len(),
            a0 == allocs_view(allocs@),
            a0 == allocs_view(old(allocs)@),
            wf_allocs(a0),
            forall|k: int| 0 <= k < i ==> (#[trigger] a0[k]).ptr != ptr,
        decreases n - i,
    {
        if allocs[i].ptr == ptr {
            assert(a0[i as int].ptr == ptr);
            let ghost pre = allocs@;
            let e = &mut allocs[i];
            e.size = nsz;
            proof {
                assert(allocs@ == pre.update(i as int, allocs@[i as int]));
                assert(allocs@[i as int].stack == pre[i as int].stack);
                assert(allocs@[i as int]@ == (AllocView {
                    ptr: ptr,
                    stack: a0[i as int].stack,
                    size: nsz,
                }));
                assert(exists|j: int| 0 <= j < a0.len() && (#[trigger] a0[j]).ptr == ptr);
                let j = choose|j: int| 0 <= j < a0.len() && (#[trigger] a0[j]).ptr == ptr;
                assert(j == i as int);
                assert(allocs_view(allocs@) =~= a0.update(
                    i as int,
                    AllocView { ptr: ptr, stack: a0[i as int].stack, size: nsz },
                ));
                assert(upd_allocs(a0, ptr, stack.deep_view(), op, size) == a0.update(
                    i as int,
                    AllocView { ptr: ptr, stack: a0[i as int].stack, size: nsz },
                ));
                assert(wf_allocs(allocs_view(allocs@)));
            }
            return;
        }
        assert(a0[i as int].ptr != ptr);
        i += 1;
    }
    proof {
        assert(!(exists|k: int| 0 <= k < a0.len() && (#[trigger] a0[k]).ptr == ptr));
    }
    allocs.push(AllocEntry { ptr: ptr, stack: stack, size: nsz });
    proof {
        assert(allocs_view(allocs@) =~= a0.push(
            AllocView { ptr: ptr, stack: stack.deep_view(), size: nsz },
        ));
        assert forall|x: int, y: int|
            0 <= x < y < allocs_view(allocs@).len() implies (#[trigger] allocs_view(
            allocs@,
        )[x]).ptr != (#[trigger] allocs_view(allocs@)[y]).ptr by {
            if y < a0.len() {
            } else {
                assert(allocs_view(allocs@)[x] == a0[x]);
            }
        }
    }
}

/// Applies one event to the per-allocator states.
#[verifier::loop_isolation(false)]
fn update_state(
    st: &mut Vec<AllocatorState>,
    name: Vec<u8>,
    ptr: u64,
    stack: Vec<String>,
    op: u8,
    size: u64,
)
    requires
        wf_states(states_view(old(st)@)),
    ensures
        states_view(final(st)@) == upd_state(
            states_view(old(st)@),
            name@,
            ptr,
            stack.deep_view(),
            op,
            size,
        ),
        wf_states(states_view(final(st)@)),
{
    let ghost s0 = states_view(st@);
    let n = st.len();
    let mut i: usize = 0;
    while i < n
        invariant
            0 <= i <= n,
            n == st@.len(),
            s0 == states_view(st@),
            s0 == states_view(old(st)@),
            wf_states(s0),
            forall|k: int| 0 <= k < i ==> (#[trigger] s0[k]).name != name@,
        decreases n - i,
    {
        if bytes_eq(&st[i].name, &name) {
            assert(s0[i as int].name == name@);
            let ghost pre = st@;
            let a = &mut st[i];
            assert(allocs_view(a.allocs@) == s0[i as int].allocs);
            update_allocs(&mut a.allocs, ptr, stack, op, size);
            proof {
                assert(st@ == pre.update(i as int, st@[i as int]));
                assert(st@[i as int].name == pre[i as int].name);
                assert(st@[i as int]@ == (AllocatorView {
                    name: name@,
                    allocs: upd_allocs(s0[i as int].allocs, ptr, stack.deep_view(), op, size),
                }));
                let j = choose|j: int| 0 <= j < s0.len() && (#[trigger] s0[j]).name == name@;
                assert(j == i as int);
                assert(states_view(st@) =~= s0.update(
                    i as int,
                    AllocatorView {
                        name: name@,
                        allocs: upd_allocs(s0[i as int].allocs, ptr, stack.deep_view(), op, size),
                    },
                ));
                assert(wf_states(states_view(st@))) by {
                    assert(forall|x: int|
                        0 <= x < states_view(st@).len() && x != i as int ==> states_view(st@)[x]
                            == s0[x]);
                }
            }
            return;
        }
        assert(s0[i as int].name != name@);
        i += 1;
    }
    proof {
        assert(!(exists|k: int| 0 <= k < s0.len() && (#[trigger] s0[k]).name == name@));
    }
    let mut allocs: Vec<AllocEntry> = Vec::new();
    proof {
        assert(allocs_view(allocs@) =~= Seq::<AllocView>::empty());
    }
    update_allocs(&mut allocs, ptr, stack, op, size);
    st.push(AllocatorState { name: name, allocs: allocs });
    proof {
        assert(states_view(st@) =~= s0.push(
            AllocatorView {
                name: name@,
                allocs: upd_allocs(Seq::empty(), ptr, stack.deep_view(), op, size),
            },
        ));
        assert forall|x: int, y: int|
            0 <= x < y < states_view(st@).len() implies (#[trigger] states_view(
            st@,
        )[x]).name != (#[trigger] states_view(st@)[y]).name by {
            if y < s0.len() {
            } else {
                assert(states_view(st@)[x] == s0[x]);
            }
        }
    }
}

/// Decodes an allocator-event trace. On success it returns, per allocator
/// in order of first appearance, the net bytes attributed to each captured
/// call-stack. It fails exactly where the stream ends inside an event or
/// an event carries an opcode above 2.
#[verifier::loop_isolation(false)]
pub fn fold_stacks_memory(data: &[u8], symbols: &[Symbol]) -> (r: Result<
    Vec<AllocatorFolded>,
    ProfileError,
>)
    ensures
        ({
            let out = mem_state_from(data@, syms_view(symbols@), 0, Seq::empty());
            &&& (r is Ok <==> out is Ok)
            &&& (out is Err ==> r == Err::<Vec<AllocatorFolded>, ProfileError>(out->Err_0))
            &&& (r is Ok ==> forall|i: int|
                0 <= i < r->Ok_0@.len() ==> (#[trigger] r->Ok_0@[i]).stacks.wf())
            &&& (r is Ok ==> forall|i: int, j: int|
                0 <= i < j < r->Ok_0@.len() ==> (#[trigger] r->Ok_0@[i]).name@ != (
                #[trigger] r->Ok_0@[j]).name@)
            &&& ((nonoverlapping(syms_view(symbols@)) && out is Ok) ==> {
                let st = out->Ok_0;
                &&& r->Ok_0@.len() == st.len()
                &&& (forall|i: int|
                    0 <= i < st.len() ==> (#[trigger] r->Ok_0@[i]).name@ == st[i].name)
                &&& (forall|i: int|
                    0 <= i < st.len() ==> (#[trigger] r->Ok_0@[i]).stacks@ == fold_allocs(
                        st[i].allocs,
                    ))
            })
        }),
{
    let ghost v = syms_view(symbols@);
    let ghost st0 = Seq::<AllocatorView>::empty();
    let mut state: Vec<AllocatorState> = Vec::new();
    let n: usize = data.len();
    let mut pos: usize = 0;
    proof {
        assert(states_view(state@) =~= st0);
    }
    while pos < n
        invariant
            pos <= n,
            wf_states(states_view(state@)),
            mem_scan(data@, 0) == mem_scan(data@, pos as int),
            nonoverlapping(v) ==> mem_state_from(data@, v, 0, st0) == mem_state_from(
                data@,
                v,
                pos as int,
                states_view(state@),
            ),
        decreases n - pos,
    {
        let l: usize = data[pos] as usize;
        let rem: usize = n - pos;
        if rem < 19 + l {
            assert(!ev_complete(data@, pos as int));
            proof {
                lemma_mem_state_err(data@, v, 0, st0);
            }
            return Err(ProfileError::TruncatedRecord { offset: pos });
        }
        let mut name: Vec<u8> = Vec::new();
        let mut q: usize = 0;
        while q < l
            invariant
                q <= l,
                name@.len() == q,
                forall|w: int| 0 <= w < q ==> name@[w] == data@[pos + 1 + w],
            decreases l - q,
        {
            name.push(data[pos + 1 + q]);
            q += 1;
        }
        proof {
            assert(name@ =~= ev_name(data@, pos as int));
        }
        let op: u8 = data[pos + 1 + l];
        assert(op == ev_op(data@, pos as int));
        let ptr: u64 = next_u64(data, pos + 2 + l).unwrap();
        let size: u64 = next_u64(data, pos + 10 + l).unwrap();
        let k: usize = data[pos + 18 + l] as usize;
        assert(k == ev_frames(data@, pos as int));
        let rem2: usize = n - (pos + 19 + l);
        if rem2 < 8 * k {
            assert(!ev_complete(data@, pos as int));
            proof {
                lemma_mem_state_err(data@, v, 0, st0);
            }
            return Err(ProfileError::TruncatedRecord { offset: pos });
        }
        assert(ev_complete(data@, pos as int));
        if op > 2 {
            proof {
                lemma_mem_state_err(data@, v, 0, st0);
            }
            return Err(ProfileError::InvalidOpcode { opcode: op, offset: pos });
        }
        let base: usize = pos + 19 + l;
        let ghost addrs = ev_addrs(data@, pos as int);
        let mut fstack: Vec<String> = Vec::new();
        let mut j: usize = 0;
        while j < k
            invariant
                j <= k,
                fstack@.len() == j,
                nonoverlapping(v) ==> fstack.deep_view() =~= resolve_with_placeholder(
                    v,
                    addrs,
                ).take(j as int),
            decreases k - j,
        {
            let addr: u64 = next_u64(data, base + 8 * j).unwrap();
            assert(addr == addrs[j as int]);
            let frame = match find_symbol(symbols, addr) {
                Some(s) => s.to_owned(),
                None => "unknown".to_owned(),
            };
            proof {
                if nonoverlapping(v) {
                    assert(frame@ == resolve_with_placeholder(v, addrs)[j as int]);
                }
            }
            fstack.push(frame);
            proof {
                if nonoverlapping(v) {
                    assert(fstack.deep_view() =~= resolve_with_placeholder(v, addrs).take(j + 1));
                }
            }
            j += 1;
        }
        proof {
            if nonoverlapping(v) {
                assert(resolve_with_placeholder(v, addrs).take(k as int)
                    =~= resolve_with_placeholder(v, addrs));
            }
        }
        let ghost s_before = states_view(state@);
        update_state(&mut state, name, ptr, fstack, op, size);
        proof {
            assert(mem_scan(data@, pos as int) == mem_scan(data@, ev_end(data@, pos as int)));
            if nonoverlapping(v) {
                assert(states_view(state@) == upd_state(
                    s_before,
                    ev_name(data@, pos as int),
                    ev_ptr(data@, pos as int),
                    resolve_with_placeholder(v, ev_addrs(data@, pos as int)),
                    ev_op(data@, pos as int),
                    ev_size(data@, pos as int),
                ));
                assert(mem_state_from(data@, v, pos as int, s_before) == mem_state_from(
                    data@,
                    v,
                    ev_end(data@, pos as int),
                    states_view(state@),
                ));
            }
        }
        pos = base + 8 * k;
    }
    proof {
        lemma_mem_state_err(data@, v, 0, st0);
        assert(mem_scan(data@, pos as int) is None);
        if nonoverlapping(v) {
            assert(mem_state_from(data@, v, pos as int, states_view(state@)) == Ok::<
                Seq<AllocatorView>,
                ProfileError,
            >(states_view(state@)));
        }
    }
    let ghost sv = states_view(state@);
    let mut result: Vec<AllocatorFolded> = Vec::new();
    while state.len() > 0
        invariant
            result@.len() + state@.len() == sv.len(),
            states_view(state@) == sv.skip(result@.len() as int),
            forall|i: int| 0 <= i < result@.len() ==> (#[trigger] result@[i]).name@ == sv[i].name,
            forall|i: int|
                0 <= i < result@.len() ==> (#[trigger] result@[i]).stacks@ == fold_allocs(
                    sv[i].allocs,
                ),
            forall|i: int| 0 <= i < result@.len() ==> (#[trigger] result@[i]).stacks.wf(),
            wf_states(sv),
        decreases state@.len(),
    {
        let ghost t = result@.len() as int;
        let ghost pre = state@;
        let st_i = state.remove(0);
        proof {
            assert(st_i@ == states_view(pre)[0]);
            assert(st_i@ == sv[t]);
            pre.remove_ensures(0);
            assert(state@.len() == pre.len() - 1);
            assert forall|i: int| 0 <= i < state@.len() implies states_view(state@)[i] == sv.skip(
                t + 1,
            )[i] by {
                assert(state@[i] == pre[i + 1]);
                assert(states_view(pre)[i + 1] == sv.skip(t)[i + 1]);
                assert(sv.skip(t)[i + 1] == sv[t + 1 + i]);
                assert(sv.skip(t + 1)[i] == sv[t + 1 + i]);
            }
            assert(states_view(state@) =~= sv.skip(t + 1));
        }
        let AllocatorState { name, mut allocs } = st_i;
        let ghost a_orig = st_i@.allocs;
        let mut folded = FoldedStacks::new();
        proof {
            assert(contribs(a_orig).skip(0) =~= contribs(a_orig));
        }
        while allocs.len() > 0
            invariant
                folded.wf(),
                fold_many(Map::<Seq<Seq<char>>, u64>::empty(), contribs(a_orig)) == fold_many(
                    folded@,
                    contribs(allocs_view(allocs@)),
                ),
            decreases allocs@.len(),
        {
            let ghost cur = allocs_view(allocs@);
            let ghost m_pre = folded@;
            let ghost apre = allocs@;
            let e = allocs.remove(0);
            proof {
                apre.remove_ensures(0);
                assert(e@ == cur[0]);
                assert(contribs(cur)[0] == (e@.stack, e@.size));
                crate::folded::lemma_fold_many_step(m_pre, contribs(cur));
                assert(contribs(cur).drop_first() =~= contribs(allocs_view(allocs@)));
            }
            folded.fold(e.stack, e.size);
        }
        proof {
            assert(contribs(allocs_view(allocs@)) =~= Seq::<(Seq<Seq<char>>, u64)>::empty());
            assert(fold_many(folded@, Seq::<(Seq<Seq<char>>, u64)>::empty()) == folded@);
            assert(folded@ == fold_allocs(a_orig));
            assert(name@ == sv[t].name);
        }
        result.push(AllocatorFolded { name: name, stacks: folded });
    }
    proof {
        assert(sv.skip(result@.len() as int).len() == 0);
        assert(result@.len() == sv.len());
    }
    Ok(result)
}


/// Folding a state with one more entry adds that entry's size to its
/// captured stack's total.
pub proof fn lemma_push_entry_contribution(a: Seq<AllocView>, e: AllocView)
    ensures
        fold_allocs(a.push(e)) == spec_fold(fold_allocs(a), e.stack, e.size),
{
    assert(contribs(a.push(e)).drop_last() =~= contribs(a));
    assert(contribs(a.push(e)).last() == (e.stack, e.size));
    assert(contribs(a.push(e)).len() == a.len() + 1);
}

/// Law: an allocate at a fresh pointer followed by a free of that pointer
/// leaves one entry for it — the captured stack with size zero — so the
/// stack's total is unchanged where the stack already contributes, and
/// becomes zero where it contributes nothing else.
pub proof fn lemma_alloc_free_net_zero(
    a: Seq<AllocView>,
    p: u64,
    s: Seq<Seq<char>>,
    s2: Seq<Seq<char>>,
    sz: u64,
    sz2: u64,
)
    requires
        forall|i: int| 0 <= i < a.len() ==> (#[trigger] a[i]).ptr != p,
    ensures
        upd_allocs(upd_allocs(a, p, s, 0, sz), p, s2, 2, sz2) == a.push(
            AllocView { ptr: p, stack: s, size: 0 },
        ),
        fold_allocs(upd_allocs(upd_allocs(a, p, s, 0, sz), p, s2, 2, sz2)) == spec_fold(
            fold_allocs(a),
            s,
            0,
        ),
        fold_allocs(a).contains_key(s) ==> fold_allocs(
            upd_allocs(upd_allocs(a, p, s, 0, sz), p, s2, 2, sz2),
        ) == fold_allocs(a),
{
    let a1 = upd_allocs(a, p, s, 0, sz);
    assert(a1 == a.push(AllocView { ptr: p, stack: s, size: sz }));
    assert(a1[a.len() as int].ptr == p);
    let j = choose|j: int| 0 <= j < a1.len() && (#[trigger] a1[j]).ptr == p;
    assert(j == a.len());
    let a2 = upd_allocs(a1, p, s2, 2, sz2);
    assert(a2 =~= a.push(AllocView { ptr: p, stack: s, size: 0 }));
    lemma_push_entry_contribution(a, AllocView { ptr: p, stack: s, size: 0 });
    if fold_allocs(a).contains_key(s) {
        assert(crate::folded::wadd(fold_allocs(a)[s], 0) == fold_allocs(a)[s]);
        assert(spec_fold(fold_allocs(a), s, 0) =~= fold_allocs(a));
    }
}

/// Law: reallocation keeps the originally captured stack. After an
/// allocate of `sz` at fresh pointer `p` capturing stack `s`, a
/// reallocate of `p` to `sz2` — whatever stack `s2` came with it — leaves
/// one entry for `p`, still carrying `s`, now of size `sz2`; the final
/// attribution goes to `s`, never to `s2`.
pub proof fn lemma_realloc_keeps_stack(
    a: Seq<AllocView>,
    p: u64,
    s: Seq<Seq<char>>,
    s2: Seq<Seq<char>>,
    sz: u64,
    sz2: u64,
)
    requires
        forall|i: int| 0 <= i < a.len() ==> (#[trigger] a[i]).ptr != p,
    ensures
        upd_allocs(upd_allocs(a, p, s, 0, sz), p, s2, 1, sz2) == a.push(
            AllocView { ptr: p, stack: s, size: sz2 },
        ),
        fold_allocs(upd_allocs(upd_allocs(a, p, s, 0, sz), p, s2, 1, sz2)) == spec_fold(
            fold_allocs(a),
            s,
            sz2,
        ),
{
    let a1 = upd_allocs(a, p, s, 0, sz);
    assert(a1 == a.push(AllocView { ptr: p, stack: s, size: sz }));
    assert(a1[a.len() as int].ptr == p);
    let j = choose|j: int| 0 <= j < a1.len() && (#[trigger] a1[j]).ptr == p;
    assert(j == a.len());
    let a2 = upd_allocs(a1, p, s2, 1, sz2);
    assert(a2 =~= a.push(AllocView { ptr: p, stack: s, size: sz2 }));
    lemma_push_entry_contribution(a, AllocView { ptr: p, stack: s, size: sz2 });
}

} // verus!
