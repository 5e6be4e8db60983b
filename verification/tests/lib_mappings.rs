use samply::lib_mappings::LibMappings;

#[test]
fn lookup_covers_ranges_and_respects_gaps() {
    let mut m = LibMappings::new();
    m.add_mapping(0x1000, 0x2000, 0, "a");
    m.add_mapping(0x3000, 0x4000, 0, "b");
    assert_eq!(m.lookup(0x0fff), None);
    assert_eq!(m.lookup(0x1500), Some(&"a"));
    assert_eq!(m.lookup(0x2000), None); // end is exclusive
    assert_eq!(m.lookup(0x2500), None); // gap between mappings
    assert_eq!(m.lookup(0x3500), Some(&"b"));
}

#[test]
fn non_overlapping_neighbours_are_left_untouched() {
    let mut m = LibMappings::new();
    m.add_mapping(0x1000, 0x2000, 0, "a");
    m.add_mapping(0x3000, 0x4000, 0, "b");
    // Fill the gap exactly; neither neighbour should be disturbed.
    m.add_mapping(0x2000, 0x3000, 0, "c");
    assert_eq!(m.lookup(0x1800), Some(&"a"));
    assert_eq!(m.lookup(0x2800), Some(&"c"));
    assert_eq!(m.lookup(0x3800), Some(&"b"));
}

#[test]
fn exact_overlap_replaces_the_value() {
    let mut m = LibMappings::new();
    m.add_mapping(0x1000, 0x2000, 0, "old");
    m.add_mapping(0x1000, 0x2000, 0, "new");
    assert_eq!(m.lookup(0x1500), Some(&"new"));
}

#[test]
fn new_mapping_clips_the_tail_of_an_existing_one() {
    let mut m = LibMappings::new();
    m.add_mapping(0x1000, 0x3000, 0, "old");
    m.add_mapping(0x2000, 0x4000, 0, "new"); // overlaps old's tail
    assert_eq!(m.lookup(0x1500), Some(&"old")); // old's head survives
    assert_eq!(m.lookup(0x2000), Some(&"new"));
    assert_eq!(m.lookup(0x2fff), Some(&"new"));
    assert_eq!(m.lookup(0x3500), Some(&"new"));
}

#[test]
fn new_mapping_clips_the_head_of_an_existing_one_and_fixes_relative_address() {
    let mut m = LibMappings::new();
    // "lib" is based at 0x2000 (relative address 0 there).
    m.add_mapping(0x2000, 0x4000, 0, "lib");
    m.add_mapping(0x1000, 0x3000, 0, "new"); // overlaps lib's head
    assert_eq!(m.lookup(0x2500), Some(&"new"));
    assert_eq!(m.lookup(0x3500), Some(&"lib")); // lib's tail survives
                                                // The surviving tail starts at 0x3000, which is 0x1000 into "lib", so an
                                                // address there must still resolve to the correct relative address.
    assert_eq!(m.convert_address(0x3800), Some((0x1800, &"lib")));
}

#[test]
fn mapping_fully_inside_the_new_one_is_dropped() {
    let mut m = LibMappings::new();
    m.add_mapping(0x2000, 0x3000, 0, "inner");
    m.add_mapping(0x1000, 0x4000, 0, "outer");
    assert_eq!(m.lookup(0x1500), Some(&"outer"));
    assert_eq!(m.lookup(0x2500), Some(&"outer"));
}

/// The motivating real-world case: `ld.so` is mapped with an over-long
/// executable mapping that spans the gap where the kernel later drops
/// `[vdso]`/`[vvar]`. Adding `[vdso]` inside it must not evict the whole
/// interpreter mapping; the executable code before the gap, and the
/// remainder after it, must stay resolvable with correct relative addresses.
#[test]
fn vdso_inside_ld_so_mapping_keeps_the_interpreter_resolvable() {
    let mut m = LibMappings::new();
    let ld_so_base = 0x7fff_0000_0000u64;
    // ld.so executable mapping, base-relative (relative address 0 at start).
    m.add_mapping(ld_so_base, ld_so_base + 0x40000, 0, "ld.so");
    // [vdso] lands in the inter-segment gap, fully inside the ld.so mapping.
    let vdso_start = ld_so_base + 0x2b000;
    m.add_mapping(vdso_start, vdso_start + 0x2000, 0, "[vdso]");

    // Executable code before the gap still resolves to ld.so...
    assert_eq!(
        m.convert_address(ld_so_base + 0x2000),
        Some((0x2000, &"ld.so"))
    );
    // ...the gap itself now belongs to [vdso]...
    assert_eq!(m.lookup(vdso_start + 0x1000), Some(&"[vdso]"));
    // ...and the remainder after [vdso] is still ld.so, with the relative
    // address preserved across the split (this is what regressed before).
    assert_eq!(
        m.convert_address(ld_so_base + 0x30000),
        Some((0x30000, &"ld.so"))
    );
}

#[test]
fn one_new_mapping_carves_several_existing_ones() {
    let mut m = LibMappings::new();
    m.add_mapping(0x1000, 0x2000, 0, "a"); // clipped on its tail
    m.add_mapping(0x2000, 0x3000, 0, "b"); // fully covered
    m.add_mapping(0x3000, 0x5000, 0, "c"); // clipped on its head
    m.add_mapping(0x1800, 0x4000, 0, "new");
    assert_eq!(m.lookup(0x1400), Some(&"a")); // a's head [0x1000,0x1800)
    assert_eq!(m.lookup(0x1800), Some(&"new"));
    assert_eq!(m.lookup(0x2800), Some(&"new")); // b is gone
    assert_eq!(m.lookup(0x3fff), Some(&"new"));
    assert_eq!(m.lookup(0x4000), Some(&"c")); // c's tail [0x4000,0x5000)
    assert_eq!(m.lookup(0x4800), Some(&"c"));
}

#[test]
fn mappings_that_are_removed_no_longer_resolve() {
    let mut m = LibMappings::new();
    m.add_mapping(0x1000, 0x2000, 7, "a");
    m.add_mapping(0x3000, 0x4000, 8, "b");
    assert_eq!(m.remove_mapping(0x1800), None);
    assert_eq!(m.remove_mapping(0x1000), Some((7, "a")));
    assert_eq!(m.lookup(0x1000), None);
    assert_eq!(m.convert_address(0x3004), Some((12, &"b")));
    m.clear();
    assert_eq!(m.lookup(0x3004), None);
}

#[test]
fn an_empty_mapping_evicts_nothing() {
    let mut m = LibMappings::new();
    m.add_mapping(0x1000, 0x3000, 0, "old");
    m.add_mapping(0x2000, 0x2000, 0, "empty");
    assert_eq!(m.convert_address(0x1fff), Some((0xfff, &"old")));
    assert_eq!(m.convert_address(0x2000), Some((0x1000, &"old")));
    assert_eq!(m.convert_address(0x2fff), Some((0x1fff, &"old")));
    assert_eq!(m.lookup(0x3000), None);
}

#[test]
fn addresses_outside_a_new_mapping_resolve_as_before() {
    let mut m = LibMappings::default();
    m.add_mapping(0x1000, 0x9000, 0x10, 1);
    for (i, start) in [0x2000u64, 0x5000, 0x4800, 0x8f00].iter().enumerate() {
        m.add_mapping(*start, *start + 0x400, 0, i as i32 + 2);
    }
    assert_eq!(m.convert_address(0x1fff), Some((0x100f, &1)));
    assert_eq!(m.convert_address(0x2400), Some((0x1410, &1)));
    assert_eq!(m.convert_address(0x4bff), Some((0x3ff, &4)));
    assert_eq!(m.convert_address(0x4c00), Some((0x3c10, &1)));
    assert_eq!(m.convert_address(0x53ff), Some((0x3ff, &3)));
    assert_eq!(m.convert_address(0x92ff), Some((0x3ff, &5)));
    assert_eq!(m.convert_address(0x9300), None);
}

#[test]
fn clones_resolve_alike_and_stand_alone() {
    let mut m = LibMappings::new();
    m.add_mapping(0x1000, 0x2000, 0x10, "a".to_string());
    m.add_mapping(0x3000, 0x4000, 0x20, "b".to_string());
    let copy = m.clone();
    m.clear();
    assert_eq!(m.convert_address(0x1004), None);
    assert_eq!(copy.convert_address(0x1004), Some((0x14, &"a".to_string())));
    assert_eq!(copy.convert_address(0x3fff), Some((0x101f, &"b".to_string())));
    assert_eq!(copy.convert_address(0x2000), None);
}
