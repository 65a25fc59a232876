use kern_profile::decode::fold_stacks_cpu;
use kern_profile::decode::next_u64;
use kern_profile::decode::stack_iter;
use kern_profile::errors::ProfileError;
use kern_profile::folded::FoldedStacks;
use kern_profile::memory::fold_stacks_memory;
use kern_profile::output::encode_folded;
use kern_profile::symbols::build_symbol_table;
use kern_profile::symbols::find_symbol;
use kern_profile::symbols::load_symbol_table;
use kern_profile::symbols::RawSymbol;
use kern_profile::symbols::Symbol;

fn sym(addr: u64, size: u64, name: &str) -> Symbol {
    Symbol {
        addr,
        size,
        name: name.to_string(),
    }
}

/// The table of the round-trip scenario: foo owns [0x1000, 0x1010),
/// bar owns [0x1010, 0x1030).
fn table() -> Vec<Symbol> {
    vec![sym(0x1000, 0x10, "foo"), sym(0x1010, 0x20, "bar")]
}

fn cpu_record(addrs: &[u64]) -> Vec<u8> {
    let mut out = vec![addrs.len() as u8];
    for a in addrs {
        out.extend_from_slice(&a.to_le_bytes());
    }
    out
}

fn mem_event(name: &str, op: u8, ptr: u64, size: u64, addrs: &[u64]) -> Vec<u8> {
    let mut out = vec![name.len() as u8];
    out.extend_from_slice(name.as_bytes());
    out.push(op);
    out.extend_from_slice(&ptr.to_le_bytes());
    out.extend_from_slice(&size.to_le_bytes());
    out.push(addrs.len() as u8);
    for a in addrs {
        out.extend_from_slice(&a.to_le_bytes());
    }
    out
}

fn stacks(names: &[&str]) -> Vec<String> {
    names.iter().map(|n| n.to_string()).collect()
}

#[test]
fn lookup_inside_ranges() {
    let t = table();
    assert_eq!(find_symbol(&t, 0x1000), Some("foo"));
    assert_eq!(find_symbol(&t, 0x1008), Some("foo"));
    assert_eq!(find_symbol(&t, 0x100f), Some("foo"));
    assert_eq!(find_symbol(&t, 0x1011), Some("bar"));
    assert_eq!(find_symbol(&t, 0x102f), Some("bar"));
}

#[test]
fn lookup_upper_bound_is_exclusive() {
    let t = table();
    // foo's end is bar's start: the next range answers.
    assert_eq!(find_symbol(&t, 0x1010), Some("bar"));
    // bar's end is outside every range.
    assert_eq!(find_symbol(&t, 0x1030), None);
}

#[test]
fn lookup_outside_ranges() {
    let t = table();
    assert_eq!(find_symbol(&t, 0x0fff), None);
    assert_eq!(find_symbol(&t, 0), None);
    assert_eq!(find_symbol(&t, u64::MAX), None);
    assert_eq!(find_symbol(&[], 0x1000), None);
}

#[test]
fn build_sorts_by_address_then_size() {
    let raw = vec![
        RawSymbol {
            addr: 0x30,
            size: 1,
            name: "c".to_string(),
        },
        RawSymbol {
            addr: 0x10,
            size: 5,
            name: "a".to_string(),
        },
        RawSymbol {
            addr: 0x10,
            size: 2,
            name: "b".to_string(),
        },
    ];
    let t = build_symbol_table(&raw);
    assert_eq!(t.len(), 3);
    assert_eq!((t[0].addr, t[0].size, t[0].name.as_str()), (0x10, 2, "b"));
    assert_eq!((t[1].addr, t[1].size, t[1].name.as_str()), (0x10, 5, "a"));
    assert_eq!((t[2].addr, t[2].size, t[2].name.as_str()), (0x30, 1, "c"));
}

#[test]
fn build_demangles_names() {
    let raw = vec![
        RawSymbol {
            addr: 0x1000,
            size: 0x10,
            name: "_ZN3foo3barE".to_string(),
        },
        RawSymbol {
            addr: 0x2000,
            size: 0x10,
            name: "plain_name".to_string(),
        },
    ];
    let t = build_symbol_table(&raw);
    assert_eq!(t[0].name, "foo::bar");
    assert_eq!(t[1].name, "plain_name");
}

#[test]
fn missing_symbol_section_is_fatal() {
    let r = load_symbol_table(None);
    assert_eq!(r.unwrap_err(), ProfileError::ElfFormat);
    let ok = load_symbol_table(Some(vec![]));
    assert_eq!(ok.unwrap().len(), 0);
}

#[test]
fn next_u64_reads_little_endian() {
    let data = 0x0123456789abcdefu64.to_le_bytes();
    assert_eq!(next_u64(&data, 0), Some(0x0123456789abcdef));
    assert_eq!(next_u64(&data, 1), None);
    assert_eq!(next_u64(&[], 0), None);
}

#[test]
fn stack_iter_resolves_one_record() {
    let t = table();
    let data = cpu_record(&[0x1005, 0x2000, 0x1020]);
    let (frames, end) = stack_iter(&data, 0, &t).unwrap();
    assert_eq!(
        frames,
        vec![Some("foo".to_string()), None, Some("bar".to_string())]
    );
    assert_eq!(end, data.len());
}

#[test]
fn stack_iter_truncated_record() {
    let t = table();
    let mut data = cpu_record(&[0x1005, 0x1020]);
    data.truncate(10);
    let r = stack_iter(&data, 0, &t);
    assert_eq!(r.unwrap_err(), ProfileError::TruncatedRecord { offset: 0 });
}

#[test]
fn cpu_round_trip_two_records() {
    // Two records, both innermost-first [bar, foo]: one line "foo;bar 2".
    let t = table();
    let mut data = cpu_record(&[0x1015, 0x1002]);
    data.extend_from_slice(&cpu_record(&[0x102f, 0x1001]));
    let folded = fold_stacks_cpu(&data, &t).unwrap();
    assert_eq!(folded.len(), 1);
    assert_eq!(folded.value_of(&stacks(&["bar", "foo"])), Some(2));
    assert_eq!(encode_folded(&folded), "foo;bar 2\n");
}

#[test]
fn cpu_unresolved_address_splits_record() {
    // One record resolving to [foo, None, bar]: lines "foo 1" and "bar 1".
    let t = table();
    let data = cpu_record(&[0x1005, 0x5000, 0x1015]);
    let folded = fold_stacks_cpu(&data, &t).unwrap();
    assert_eq!(folded.len(), 2);
    assert_eq!(folded.value_of(&stacks(&["foo"])), Some(1));
    assert_eq!(folded.value_of(&stacks(&["bar"])), Some(1));
    assert_eq!(folded.value_of(&stacks(&["foo", "bar"])), None);
    assert_eq!(encode_folded(&folded), "foo 1\nbar 1\n");
}

#[test]
fn cpu_splitting_never_joins_across_gap() {
    // [A, B, None, C] adds to [A, B] and [C], never to [A, B, C].
    let t = vec![
        sym(0x100, 0x10, "a"),
        sym(0x200, 0x10, "b"),
        sym(0x300, 0x10, "c"),
    ];
    let data = cpu_record(&[0x100, 0x200, 0x900, 0x300]);
    let folded = fold_stacks_cpu(&data, &t).unwrap();
    assert_eq!(folded.value_of(&stacks(&["a", "b"])), Some(1));
    assert_eq!(folded.value_of(&stacks(&["c"])), Some(1));
    assert_eq!(folded.value_of(&stacks(&["a", "b", "c"])), None);
    assert_eq!(folded.len(), 2);
}

#[test]
fn cpu_leading_trailing_and_double_unresolved() {
    let t = table();
    // [None, foo, None, None, bar, None]: only [foo] and [bar] fold.
    let data = cpu_record(&[0x1, 0x1005, 0x2, 0x3, 0x1015, 0x4]);
    let folded = fold_stacks_cpu(&data, &t).unwrap();
    assert_eq!(folded.len(), 2);
    assert_eq!(folded.value_of(&stacks(&["foo"])), Some(1));
    assert_eq!(folded.value_of(&stacks(&["bar"])), Some(1));
}

#[test]
fn cpu_empty_stream_folds_nothing() {
    let t = table();
    let folded = fold_stacks_cpu(&[], &t).unwrap();
    assert_eq!(folded.len(), 0);
    assert_eq!(encode_folded(&folded), "");
}

#[test]
fn cpu_truncated_second_record() {
    let t = table();
    let mut data = cpu_record(&[0x1005]);
    let first_len = data.len();
    data.push(3); // a record promising three frames, none present
    let r = fold_stacks_cpu(&data, &t);
    assert_eq!(
        r.unwrap_err(),
        ProfileError::TruncatedRecord { offset: first_len }
    );
}

#[test]
fn folding_is_commutative() {
    let mut one = FoldedStacks::new();
    one.fold(stacks(&["x"]), 3);
    one.fold(stacks(&["y", "z"]), 1);
    one.fold(stacks(&["x"]), 2);
    let mut other = FoldedStacks::new();
    other.fold(stacks(&["x"]), 2);
    other.fold(stacks(&["x"]), 3);
    other.fold(stacks(&["y", "z"]), 1);
    assert_eq!(one.len(), 2);
    assert_eq!(other.len(), 2);
    assert_eq!(one.value_of(&stacks(&["x"])), Some(5));
    assert_eq!(other.value_of(&stacks(&["x"])), Some(5));
    assert_eq!(one.value_of(&stacks(&["y", "z"])), Some(1));
    assert_eq!(other.value_of(&stacks(&["y", "z"])), Some(1));
}

#[test]
fn fold_distinguishes_order_and_length() {
    let mut f = FoldedStacks::new();
    f.fold(stacks(&["a", "b"]), 1);
    f.fold(stacks(&["b", "a"]), 1);
    f.fold(stacks(&["a"]), 1);
    assert_eq!(f.len(), 3);
    assert_eq!(f.value_of(&stacks(&["a", "b"])), Some(1));
    assert_eq!(f.value_of(&stacks(&["b", "a"])), Some(1));
    assert_eq!(f.value_of(&stacks(&["a"])), Some(1));
}

#[test]
fn alloc_free_nets_to_zero() {
    let t = table();
    let mut data = mem_event("kmalloc", 0, 0x10, 100, &[0x1005]);
    data.extend_from_slice(&mem_event("kmalloc", 2, 0x10, 0, &[]));
    let out = fold_stacks_memory(&data, &t).unwrap();
    assert_eq!(out.len(), 1);
    assert_eq!(out[0].name, b"kmalloc".to_vec());
    assert_eq!(out[0].stacks.value_of(&stacks(&["foo"])), Some(0));
}

#[test]
fn alloc_free_leaves_other_allocations() {
    let t = table();
    let mut data = mem_event("kmalloc", 0, 0x10, 100, &[0x1005]);
    data.extend_from_slice(&mem_event("kmalloc", 0, 0x20, 40, &[0x1005]));
    data.extend_from_slice(&mem_event("kmalloc", 2, 0x10, 0, &[]));
    let out = fold_stacks_memory(&data, &t).unwrap();
    assert_eq!(out.len(), 1);
    assert_eq!(out[0].stacks.value_of(&stacks(&["foo"])), Some(40));
}

#[test]
fn realloc_keeps_original_stack() {
    let t = table();
    // Allocate at a foo call-site, reallocate from a bar call-site:
    // the 50 bytes stay attributed to foo.
    let mut data = mem_event("kmalloc", 0, 0x10, 100, &[0x1005]);
    data.extend_from_slice(&mem_event("kmalloc", 1, 0x10, 50, &[0x1015]));
    let out = fold_stacks_memory(&data, &t).unwrap();
    assert_eq!(out.len(), 1);
    assert_eq!(out[0].stacks.value_of(&stacks(&["foo"])), Some(50));
    assert_eq!(out[0].stacks.value_of(&stacks(&["bar"])), None);
}

#[test]
fn invalid_opcode_aborts() {
    let t = table();
    let mut data = mem_event("kmalloc", 0, 0x10, 100, &[0x1005]);
    let second = data.len();
    data.extend_from_slice(&mem_event("kmalloc", 9, 0x20, 8, &[0x1005]));
    let r = fold_stacks_memory(&data, &t);
    assert_eq!(
        r.unwrap_err(),
        ProfileError::InvalidOpcode {
            opcode: 9,
            offset: second
        }
    );
}

#[test]
fn memory_truncated_event() {
    let t = table();
    let mut data = mem_event("kmalloc", 0, 0x10, 100, &[0x1005]);
    data.truncate(data.len() - 3);
    let r = fold_stacks_memory(&data, &t);
    assert_eq!(r.unwrap_err(), ProfileError::TruncatedRecord { offset: 0 });
}

#[test]
fn memory_unresolved_frames_use_placeholder() {
    let t = table();
    let data = mem_event("m", 0, 0x10, 16, &[0x9999, 0x1015]);
    let out = fold_stacks_memory(&data, &t).unwrap();
    assert_eq!(
        out[0].stacks.value_of(&stacks(&["unknown", "bar"])),
        Some(16)
    );
    assert_eq!(encode_folded(&out[0].stacks), "bar;unknown 16\n");
}

#[test]
fn memory_groups_by_allocator() {
    let t = table();
    let mut data = mem_event("slab", 0, 0x10, 8, &[0x1005]);
    data.extend_from_slice(&mem_event("page", 0, 0x10, 32, &[0x1015]));
    data.extend_from_slice(&mem_event("slab", 0, 0x20, 8, &[0x1005]));
    let out = fold_stacks_memory(&data, &t).unwrap();
    assert_eq!(out.len(), 2);
    assert_eq!(out[0].name, b"slab".to_vec());
    assert_eq!(out[1].name, b"page".to_vec());
    assert_eq!(out[0].stacks.value_of(&stacks(&["foo"])), Some(16));
    assert_eq!(out[1].stacks.value_of(&stacks(&["bar"])), Some(32));
}

#[test]
fn memory_event_without_frames() {
    let t = table();
    let data = mem_event("m", 0, 0x10, 7, &[]);
    let out = fold_stacks_memory(&data, &t).unwrap();
    assert_eq!(out[0].stacks.value_of(&stacks(&[])), Some(7));
    assert_eq!(encode_folded(&out[0].stacks), " 7\n");
}

#[test]
fn encoder_emits_root_first_lines() {
    let mut f = FoldedStacks::new();
    // Captured innermost-first [leaf, mid, root]: printed root;mid;leaf.
    f.fold(stacks(&["leaf", "mid", "root"]), 12345);
    assert_eq!(encode_folded(&f), "root;mid;leaf 12345\n");
}

#[test]
fn encoder_prints_zero_and_large_values() {
    let mut f = FoldedStacks::new();
    f.fold(stacks(&["a"]), 0);
    f.fold(stacks(&["b"]), u64::MAX);
    assert_eq!(encode_folded(&f), "a 0\nb 18446744073709551615\n");
}

#[test]
fn zero_size_symbol_owns_no_address() {
    let t = vec![sym(0x1000, 0, "empty"), sym(0x1000, 0x10, "foo")];
    assert_eq!(find_symbol(&t, 0x1000), Some("foo"));
    assert_eq!(find_symbol(&t, 0x1008), Some("foo"));
}

#[test]
fn folded_entries_keep_insertion_order() {
    let mut f = FoldedStacks::new();
    f.fold(stacks(&["a"]), 1);
    f.fold(stacks(&["b"]), 2);
    f.fold(stacks(&["a"]), 1);
    assert_eq!(f.len(), 2);
    let (s0, v0) = f.entry_at(0);
    assert_eq!((s0.clone(), v0), (stacks(&["a"]), 2));
    let (s1, v1) = f.entry_at(1);
    assert_eq!((s1.clone(), v1), (stacks(&["b"]), 2));
    assert_eq!(encode_folded(&f), "a 2\nb 2\n");
}
