//! The symbol table: a sorted interval index over an ELF binary's symbol
//! entries, answering "which routine owns address A".

use vstd::prelude::*;

use crate::errors::ProfileError;

verus! {

/// Mathematical image of one symbol: the half-open address range
/// `[addr, addr + size)` and the routine's display name.
pub ghost struct SymView {
    pub addr: u64,
    pub size: u64,
    pub name: Seq<char>,
}

/// One named routine of the traced binary, owning the address range
/// `[addr, addr + size)`.
#[derive(Debug)]
pub struct Symbol {
    pub addr: u64,
    pub size: u64,
    pub name: String,
}

impl View for Symbol {
    type V = SymView;

    open spec fn view(&self) -> SymView {
        SymView { addr: self.addr, size: self.size, name: self.name@ }
    }
}

/// A symbol entry as the ELF reader hands it over: address, size, and the
/// raw (still mangled) linker name.
pub struct RawSymbol {
    pub addr: u64,
    pub size: u64,
    pub name: String,
}

/// The mathematical image of a slice of symbols.
pub open spec fn syms_view(s: Seq<Symbol>) -> Seq<SymView> {
    Seq::new(s.len(), |i: int| s[i]@)
}

/// Whether address `addr` lies in the symbol's half-open range.
pub open spec fn sym_contains(s: SymView, addr: u64) -> bool {
    s.addr <= addr && (addr as int) < s.addr + s.size
}

/// The table's order: ascending by `(addr, size)`.
pub open spec fn sym_le(a: SymView, b: SymView) -> bool {
    a.addr < b.addr || (a.addr == b.addr && a.size <= b.size)
}

/// The table invariant: entries ascend by `(addr, size)`.
pub open spec fn table_sorted(v: Seq<SymView>) -> bool {
    forall|i: int, j: int| 0 <= i < j < v.len() ==> sym_le(#[trigger] v[i], #[trigger] v[j])
}

/// The assumption the interval search rests on: each range ends no later
/// than the next one starts. Under it, no address lies in two ranges.
/// (This implies the `(addr, size)` order.)
pub open spec fn nonoverlapping(v: Seq<SymView>) -> bool {
    forall|i: int, j: int| 0 <= i < j < v.len() ==> (#[trigger] v[i]).addr + v[i].size <= (#[trigger] v[j]).addr
}

/// What a lookup returns: the name of the range containing `addr`, if any.
/// Only meaningful when at most one range contains `addr`.
pub open spec fn spec_resolve(v: Seq<SymView>, addr: u64) -> Option<Seq<char>> {
    if exists|i: int| 0 <= i < v.len() && sym_contains(#[trigger] v[i], addr) {
        let i = choose|i: int| 0 <= i < v.len() && sym_contains(#[trigger] v[i], addr);
        Some(v[i].name)
    } else {
        None
    }
}

/// The view of an optional borrowed name.
pub open spec fn opt_name_view(r: Option<&str>) -> Option<Seq<char>> {
    match r {
        Some(name) => Some(name@),
        None => None,
    }
}

/// Returns the name of the symbol whose range contains the address, by
/// binary search over the sorted ranges.
///
/// A returned name always belongs to a range containing the address. The
/// full characterisation (including `None` meaning "no range contains the
/// address") holds under the non-overlap assumption; with overlapping
/// ranges the search may miss a containing range.
pub fn find_symbol<'a>(symbols: &'a [Symbol], addr: u64) -> (r: Option<&'a str>)
    ensures
        r is Some ==> exists|i: int|
            0 <= i < symbols@.len() && sym_contains(#[trigger] syms_view(symbols@)[i], addr)
                && r.unwrap()@ == syms_view(symbols@)[i].name,
        nonoverlapping(syms_view(symbols@)) ==> opt_name_view(r) == spec_resolve(
            syms_view(symbols@),
            addr,
        ),
{
    let ghost v = syms_view(symbols@);
    let mut lo: usize = 0;
    let mut hi: usize = symbols.len();
    while lo < hi
        invariant
            0 <= lo <= hi <= symbols@.len(),
            v == syms_view(symbols@),
            nonoverlapping(v) ==> forall|k: int| 0 <= k < lo ==> !sym_contains(#[trigger] v[k], addr),
            nonoverlapping(v) ==> forall|k: int|
                hi <= k < v.len() ==> !sym_contains(#[trigger] v[k], addr),
        decreases hi - lo,
    {
        let mid = lo + (hi - lo) / 2;
        let sym = &symbols[mid];
        assert(sym@ == v[mid as int]);
        if addr < sym.addr {
            // Everything at or after `mid` starts past the address.
            assert(nonoverlapping(v) ==> forall|k: int|
                mid <= k < v.len() ==> !sym_contains(#[trigger] v[k], addr)) by {
                if nonoverlapping(v) {
                    assert forall|k: int| mid <= k < v.len() implies !sym_contains(
                        #[trigger] v[k],
                        addr,
                    ) by {
                        if mid < k {
                            assert(v[mid as int].addr + v[mid as int].size <= v[k].addr);
                        }
                    }
                }
            }
            hi = mid;
        } else if sym.size <= addr - sym.addr {
            // The address is at or past the end of `mid`'s range.
            assert(nonoverlapping(v) ==> forall|k: int| 0 <= k <= mid ==> !sym_contains(
                #[trigger] v[k],
                addr,
            )) by {
                if nonoverlapping(v) {
                    assert forall|k: int| 0 <= k <= mid implies !sym_contains(
                        #[trigger] v[k],
                        addr,
                    ) by {
                        if k < mid {
                            assert(v[k].addr + v[k].size <= v[mid as int].addr);
                        }
                    }
                }
            }
            lo = mid + 1;
        } else {
            assert(sym_contains(v[mid as int], addr));
            return Some(sym.name.as_str());
        }
    }
    proof {
        if nonoverlapping(v) {
            assert forall|k: int| 0 <= k < v.len() implies !sym_contains(#[trigger] v[k], addr) by {}
        }
    }
    None
}

/// The display name that demangling a raw linker symbol yields. The
/// demangler's exact output is not restated here; it is a fixed function
/// of the raw text alone.
pub uninterp spec fn demangled_of(raw: Seq<char>) -> Seq<char>;

/// Relies on rustc_demangle::demangle: turns a mangled linker name into a
/// human-readable routine name (alternate form, hash suffix stripped). The
/// result depends on the input text alone and the call never fails.
#[verifier::external_body]
fn demangle_name(raw: &str) -> (r: String)
    ensures
        r@ == demangled_of(raw@),
{
    format!("{:#}", rustc_demangle::demangle(raw))
}

/// The demangled images of raw entries, in input order.
pub open spec fn demangled_views(raw: Seq<RawSymbol>) -> Seq<SymView> {
    Seq::new(
        raw.len(),
        |i: int|
            SymView {
                addr: raw[i].addr,
                size: raw[i].size,
                name: demangled_of(raw[i].name@),
            },
    )
}

/// What building the table promises: exactly the input entries, demangled,
/// in `(addr, size)` order.
pub open spec fn built_from(raw: Seq<RawSymbol>, v: Seq<SymView>) -> bool {
    &&& table_sorted(v)
    &&& v.len() == raw.len()
    &&& v.to_multiset() == demangled_views(raw).to_multiset()
}

/// Index at which `x` belongs in the sorted table: past every entry that
/// precedes it in the `(addr, size)` order.
fn insert_pos(out: &Vec<Symbol>, x: &Symbol) -> (p: usize)
    requires
        table_sorted(syms_view(out@)),
    ensures
        p <= out@.len(),
        forall|k: int| 0 <= k < p ==> sym_le(#[trigger] syms_view(out@)[k], x@),
        forall|k: int| p <= k < out@.len() ==> sym_le(x@, #[trigger] syms_view(out@)[k]),
{
    let ghost v = syms_view(out@);
    let mut p: usize = 0;
    while p < out.len()
        invariant
            p <= out@.len(),
            v == syms_view(out@),
            table_sorted(v),
            forall|k: int| 0 <= k < p ==> sym_le(#[trigger] v[k], x@),
        decreases out@.len() - p,
    {
        let s = &out[p];
        assert(s@ == v[p as int]);
        if !(s.addr < x.addr || (s.addr == x.addr && s.size <= x.size)) {
            assert(sym_le(x@, v[p as int]));
            assert forall|k: int| p <= k < out@.len() implies sym_le(
                x@,
                #[trigger] v[k],
            ) by {
                if p < k {
                    assert(sym_le(v[p as int], v[k]));
                }
            }
            return p;
        }
        p += 1;
    }
    p
}

proof fn lemma_syms_view_insert(s: Seq<Symbol>, p: int, x: Symbol)
    requires
        0 <= p <= s.len(),
    ensures
        syms_view(s.insert(p, x)) =~= syms_view(s).insert(p, x@),
{
    s.insert_ensures(p, x);
    syms_view(s).insert_ensures(p, x@);
}

proof fn lemma_sorted_insert(v: Seq<SymView>, p: int, x: SymView)
    requires
        table_sorted(v),
        0 <= p <= v.len(),
        forall|k: int| 0 <= k < p ==> sym_le(#[trigger] v[k], x),
        forall|k: int| p <= k < v.len() ==> sym_le(x, #[trigger] v[k]),
    ensures
        table_sorted(v.insert(p, x)),
{
    v.insert_ensures(p, x);
    let w = v.insert(p, x);
    assert forall|i: int, j: int| 0 <= i < j < w.len() implies sym_le(
        #[trigger] w[i],
        #[trigger] w[j],
    ) by {
        if i < p && j < p {
            assert(w[i] == v[i] && w[j] == v[j]);
        } else if i < p && j == p {
            assert(w[i] == v[i] && w[j] == x);
        } else if i < p && j > p {
            assert(w[i] == v[i] && w[j] == v[j - 1]);
            assert(sym_le(v[i], x) && sym_le(x, v[j - 1]));
        } else if i == p {
            assert(w[i] == x && w[j] == v[j - 1]);
        } else {
            assert(w[i] == v[i - 1] && w[j] == v[j - 1]);
        }
    }
}

/// Builds the symbol table from the raw ELF symbol entries: each raw name
/// is demangled, and the entries are sorted ascending by `(addr, size)`.
pub fn build_symbol_table(raw: &Vec<RawSymbol>) -> (r: Vec<Symbol>)
    ensures
        built_from(raw@, syms_view(r@)),
{
    broadcast use vstd::seq_lib::to_multiset_insert;

    let ghost dv = demangled_views(raw@);
    let mut out: Vec<Symbol> = Vec::new();
    let mut i: usize = 0;
    proof {
        assert(syms_view(out@) =~= Seq::<SymView>::empty());
        assert(dv.take(0) =~= Seq::<SymView>::empty());
    }
    while i < raw.len()
        invariant
            i <= raw@.len(),
            dv == demangled_views(raw@),
            table_sorted(syms_view(out@)),
            out@.len() == i,
            syms_view(out@).to_multiset() == dv.take(i as int).to_multiset(),
        decreases raw@.len() - i,
    {
        broadcast use vstd::seq_lib::to_multiset_insert;

        let rs = &raw[i];
        let name = demangle_name(rs.name.as_str());
        let sym = Symbol { addr: rs.addr, size: rs.size, name };
        assert(sym@ == dv[i as int]);
        let p = insert_pos(&out, &sym);
        let ghost old_syms = out@;
        proof {
            lemma_syms_view_insert(old_syms, p as int, sym);
            lemma_sorted_insert(syms_view(old_syms), p as int, sym@);
            assert(dv.take(i + 1) =~= dv.take(i as int).push(dv[i as int]));
            vstd::seq_lib::to_multiset_build(dv.take(i as int), dv[i as int]);
        }
        out.insert(p, sym);
        proof {
            assert(syms_view(out@) == syms_view(old_syms).insert(p as int, sym@));
            assert(syms_view(out@).to_multiset() == syms_view(old_syms).to_multiset().insert(
                sym@,
            ));
        }
        i += 1;
    }
    proof {
        assert(dv.take(raw@.len() as int) =~= dv);
    }
    out
}

/// Builds the table from what the ELF reader found. `None` means the
/// binary has no symbol section at all, a fatal format error; an empty
/// entry list is valid and yields a table that resolves nothing.
pub fn load_symbol_table(raw: Option<Vec<RawSymbol>>) -> (r: Result<Vec<Symbol>, ProfileError>)
    ensures
        match raw {
            None => r == Err::<Vec<Symbol>, ProfileError>(ProfileError::ElfFormat),
            Some(entries) => r is Ok && built_from(entries@, syms_view(r.unwrap()@)),
        },
{
    match raw {
        None => Err(ProfileError::ElfFormat),
        Some(entries) => Ok(build_symbol_table(&entries)),
    }
}

/// Law: under the non-overlap assumption, every address inside a range
/// resolves to exactly that range's name.
pub proof fn lemma_resolve_in_range(v: Seq<SymView>, i: int, addr: u64)
    requires
        nonoverlapping(v),
        0 <= i < v.len(),
        sym_contains(v[i], addr),
    ensures
        spec_resolve(v, addr) == Some(v[i].name),
{
    assert(exists|j: int| 0 <= j < v.len() && sym_contains(#[trigger] v[j], addr));
    let j = choose|j: int| 0 <= j < v.len() && sym_contains(#[trigger] v[j], addr);
    if i < j {
        assert(v[i].addr + v[i].size <= v[j].addr);
    } else if j < i {
        assert(v[j].addr + v[j].size <= v[i].addr);
    }
    assert(j == i);
}

} // verus!
