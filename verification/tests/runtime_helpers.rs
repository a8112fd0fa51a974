//! What the runtime helpers' machine code must and must not contain.

use lullaby_ir::runtime::format::emit_parse_i64_helper;
use lullaby_ir::runtime::heap::{
    emit_heap_alloc_helper, emit_rc_dec_helper, emit_rc_free_helper,
};
use lullaby_ir::runtime::search::{
    emit_str_contains_helper, emit_str_ends_with_helper, emit_str_find_helper,
    emit_str_starts_with_helper, emit_str_substring_helper,
};
use lullaby_ir::runtime::strings::{
    emit_str_binop_own_helper, emit_str_read_own_helper, emit_str_join_helper,
        emit_str_split_helper,
};
use lullaby_ir::runtime::HEAP_REGION_SIZE;
use lullaby_ir::symbols::{
    ALLOC_MODE_SYMBOL, HEAP_ALLOC_SYMBOL, HEAP_FREE_HEAD_SYMBOL, RC_DEC_SYMBOL, RC_FREE_SYMBOL,
    STR_CONCAT_SYMBOL, STR_COUNT_SYMBOL, STR_FIND_SYMBOL, STR_SUBSTRING_SYMBOL,
};

#[test]
fn binop_own_helper_forwards_operands_and_reclaims_fresh_ones() {
    // The two-string ownership-aware helper must `mov rsi, rdx` (48 89 D6 — NOT the
    // no-op 48 89 F6, which would leave garbage for the right operand's rc_dec),
    // indirect-`call r9` the op, and `rc_dec` the marked operands.
    let helper = emit_str_binop_own_helper();
    assert!(
        helper.code.windows(3).any(|w| w == [0x48, 0x89, 0xD6]),
        "binop_own must set the right operand with `mov rsi, rdx` (48 89 D6)"
    );
    assert!(
        !helper.code.windows(3).any(|w| w == [0x48, 0x89, 0xF6]),
        "binop_own must NOT contain the no-op `mov rsi, rsi` (48 89 F6)"
    );
    assert!(
        helper.code.windows(3).any(|w| w == [0x41, 0xFF, 0xD1]),
        "binop_own must indirect-call the op (`call r9`)"
    );
    assert!(
        helper
            .relocations
            .iter()
            .filter(|r| r.symbol == RC_DEC_SYMBOL)
            .count()
            >= 2,
        "binop_own must rc_dec both marked operands"
    );
}

#[test]
fn rc_dec_helper_frees_at_zero_and_tail_calls_free() {
    // rc_dec decrements the refcount at [rcx-8] and tail-jumps to rc_free only at
    // zero; rc_free pushes the block base (rcx-16) onto the free list.
    let dec = emit_rc_dec_helper();
    assert_eq!(
        &dec.code[0..4],
        &[0x48, 0xFF, 0x49, 0xF8],
        "rc_dec must start with `dec qword [rcx - 8]`"
    );
    assert!(
        dec.relocations.iter().any(|r| r.symbol == RC_FREE_SYMBOL),
        "rc_dec must tail-call rc_free at zero"
    );
    let free = emit_rc_free_helper();
    assert!(
        free.relocations
            .iter()
            .any(|r| r.symbol == HEAP_FREE_HEAD_SYMBOL),
        "rc_free must push onto the free list"
    );
    // Arena-first memory (stage 1): rc_free first checks the arena-mode flag and,
    // when set, returns without pushing (the arena reclaims by bump-pointer rewind).
    assert_eq!(
        &free.code[0..3],
        &[0x48, 0x8B, 0x05],
        "rc_free must begin by loading the arena-mode flag (`mov rax, [rip + alloc_mode]`)"
    );
    assert!(
        free.relocations
            .iter()
            .any(|r| r.symbol == ALLOC_MODE_SYMBOL),
        "rc_free must reference the arena-mode flag"
    );
    // The RC push path still computes the block base with `lea rax, [rcx - 16]`.
    assert!(
        free.code.windows(4).any(|w| w == [0x48, 0x8D, 0x41, 0xF0]),
        "rc_free must compute the block base with `lea rax, [rcx - 16]`"
    );
}

#[test]
fn alloc_helper_carries_rc_header_and_free_list() {
    // The allocator is a free-list allocator with a 16-byte RC header: its body
    // references the `.bss` free-list head symbol (the reuse scan) and seeds a
    // fresh block's refcount to 1 (`mov qword [rax+8], 1` / `[r11+8], 1`).
    let helper = emit_heap_alloc_helper();
    assert!(
        helper
            .relocations
            .iter()
            .any(|r| r.symbol == HEAP_FREE_HEAD_SYMBOL),
        "the allocator must scan the free list for reuse"
    );
    // Both the bump path and the reuse path write an immediate refcount of 1
    // into the block header (the `01 00 00 00` of a `mov qword [reg+8], 1`).
    assert!(
        helper
            .code
            .windows(8)
            .any(|w| w == [0x48, 0xC7, 0x40, 0x08, 0x01, 0x00, 0x00, 0x00])
            && helper
                .code
                .windows(8)
                .any(|w| w == [0x49, 0xC7, 0x43, 0x08, 0x01, 0x00, 0x00, 0x00]),
        "the allocator must seed refcount = 1 on both the bump and reuse paths"
    );
}

#[test]
fn alloc_helper_has_heap_overflow_guard() {
    // Part B (safety): the bump path must bounds-check against the end of the fixed
    // heap region and trap (`ud2`) on exhaustion instead of writing out of bounds.
    // The guard forms `r11 = heap_base + HEAP_REGION_SIZE` via `add r11, imm32`
    // (`49 81 C3 <region>`) then `cmp r9, r11` (`4D 39 D9`) + `jbe +2` (`76 02`) +
    // `ud2` (`0F 0B`).
    let helper = emit_heap_alloc_helper();
    let region = HEAP_REGION_SIZE.to_le_bytes();
    let add_r11 = [0x49, 0x81, 0xC3, region[0], region[1], region[2], region[3]];
    assert!(
        helper.code.windows(7).any(|w| w == add_r11),
        "the guard must compute heap_end = heap_base + HEAP_REGION_SIZE"
    );
    assert!(
        helper
            .code
            .windows(7)
            .any(|w| w == [0x4D, 0x39, 0xD9, 0x76, 0x02, 0x0F, 0x0B]),
        "the allocator must carry a `cmp r9,r11; jbe +2; ud2` heap-exhaustion guard"
    );
}

#[test]
fn split_helper_traps_empty_separator_and_composes_string_helpers() {
    // The split helper composes the tested count/find/substring helpers and
    // traps (`ud2`) on an empty separator (the interpreters' `L0417`).
    let helper = emit_str_split_helper();
    assert!(
        helper.code.windows(2).any(|w| w == [0x0F, 0x0B]),
        "the split helper must carry a `ud2` trap for an empty separator"
    );
    for symbol in [
        STR_COUNT_SYMBOL,
        STR_FIND_SYMBOL,
        STR_SUBSTRING_SYMBOL,
        HEAP_ALLOC_SYMBOL,
    ] {
        assert!(
            helper.relocations.iter().any(|r| r.symbol == symbol),
            "the split helper must call {symbol}"
        );
    }
    // Join is built from the concat helper.
    let join = emit_str_join_helper();
    assert!(
        join.relocations
            .iter()
            .any(|r| r.symbol == STR_CONCAT_SYMBOL),
        "the join helper must chain the concat helper"
    );
}

#[test]
fn parse_i64_helper_allocates_its_error_message() {
    // The `err` path builds a fresh `cannot parse `{text}` as i64` record, so
    // the helper references the bump allocator and carries a checked `imul`
    // (`4D 6B D2 0A` = `imul r10, r10, 10`) for the overflow-detecting accumulate.
    let helper = emit_parse_i64_helper();
    assert!(
        helper
            .relocations
            .iter()
            .any(|r| r.symbol == HEAP_ALLOC_SYMBOL),
        "the parse_i64 helper must call the bump allocator to build its error string"
    );
    assert!(
        helper
            .code
            .windows(4)
            .any(|w| w == [0x4D, 0x6B, 0xD2, 0x0A]),
        "the parse_i64 helper must use a checked `imul r10, r10, 10` accumulate"
    );
}

#[test]
fn substring_helper_emits_the_l0413_trap() {
    // The `substring` helper bounds-checks the char range and traps with `ud2`
    // (0F 0B) on a violation, mirroring the interpreters' `L0413` — it must not
    // silently produce a wrong slice. Assert the helper body carries a `ud2`.
    let helper = emit_str_substring_helper();
    assert!(
        helper.code.windows(2).any(|w| w == [0x0F, 0x0B]),
        "the substring helper must carry a `ud2` trap for out-of-bounds ranges"
    );
    // It allocates a fresh record, so it references the bump allocator.
    assert!(
        helper
            .relocations
            .iter()
            .any(|r| r.symbol == HEAP_ALLOC_SYMBOL),
        "the substring helper must call the bump allocator"
    );
}

#[test]
fn index_string_scan_helpers_are_leaf_functions() {
    // `find`/`contains`/`starts_with`/`ends_with` are pure scans: no allocation,
    // so they carry no relocations, and each returns via a single `ret` (0xC3).
    for helper in [
        emit_str_find_helper(),
        emit_str_contains_helper(),
        emit_str_starts_with_helper(),
        emit_str_ends_with_helper(),
    ] {
        assert!(
            helper.relocations.is_empty(),
            "{} must be a leaf (no calls/relocations)",
            helper.name
        );
        assert_eq!(
            helper.code.last(),
            Some(&0xC3),
            "{} must end in `ret`",
            helper.name
        );
    }
}

#[test]
fn read_own_calls_the_operation_and_drops_the_source() {
    let helper = emit_str_read_own_helper();
    assert!(helper.code.windows(3).any(|w| w == [0x41, 0xFF, 0xD1]));
    let drops = helper.relocations.iter().filter(|r| r.symbol == RC_DEC_SYMBOL).count();
    assert_eq!(drops, 1);
}
