use glowworm::Glowworm;

/// Empty state hash.
const CHECKVALUE: u64 = 0xCCA4220FC78D45E0;

#[test]
fn same_as_default() {
    // Starting from an all-zero ring, feeding back the low bit of the
    // running hash for 4096 rounds and resetting the position reproduces
    // the fixed default state exactly.
    let mut a = Glowworm { s: [0; 32], n: 0, t: 1, h: 1 };

    for _ in 0..4096 {
        a.h = a.add_bit(a.h & 1);
    }
    a.n = 0;
    assert_eq!(a.h, CHECKVALUE);

    let b = Glowworm::default();

    assert_eq!(a, b);
}

#[test]
fn add_delete_is_empty() {
    let mut gw = Glowworm::default();
    assert_eq!(gw.h, CHECKVALUE);

    let hash = gw.add_bit(1);
    assert_eq!(hash, 12612998674271867816);

    let hash = gw.add_bit(0);
    assert_eq!(hash, 3140184078842265393);

    let hash = gw.del_bit(0);
    assert_eq!(hash, 12612998674271867816);

    let hash = gw.del_bit(1);
    assert_eq!(hash, CHECKVALUE);
}

#[test]
fn hasher() {
    let mut gw = Glowworm::default();
    gw.write_u8(u8::MAX);
    let hash = gw.finish();

    // Check that removing all the bits from u8::MAX resets to the empty state.
    for _ in 0..8 {
        gw.del_bit(1);
    }
    assert_eq!(gw.h, CHECKVALUE);

    // check that setting all bits to 1 is the same as adding u8::MAX.
    let mut gw = Glowworm::default();
    for _ in 0..8 {
        gw.add_bit(1);
    }
    assert_eq!(gw.h, hash);

    // check that order of bit insertion is low to high bits.
    let mut gw = Glowworm::default();
    gw.write_u64(u32::MAX as u64);
    let hash = gw.finish();

    let mut gw = Glowworm::default();
    for _ in 0..32 {
        gw.add_bit(1);
    }
    for _ in 0..32 {
        gw.add_bit(0);
    }

    assert_eq!(gw.h, hash);
}

#[test]
fn byte_round_trip_restores_ring() {
    // Writing 0xFF and deleting its eight one-bits restores the ring and
    // position to the default state's.
    let def = Glowworm::default();
    let mut gw = Glowworm::default();
    gw.write(&[0xFF]);
    assert_ne!(gw.s, def.s);
    for _ in 0..8 {
        gw.del_bit(1);
    }
    assert_eq!(gw.s, def.s);
    assert_eq!(gw.n, def.n);
}

#[test]
fn bulk_write_equals_bit_absorption() {
    // One byte through the stream adapter equals its eight bits through
    // add_bit, least significant first.
    let mut by_write = Glowworm::default();
    by_write.write(&[0xFF]);

    let mut by_bits = Glowworm::default();
    for _ in 0..8 {
        by_bits.add_bit(1);
    }
    assert_eq!(by_write, by_bits);

    let mut by_write = Glowworm::default();
    by_write.write(&[0xB5, 0x01]);

    let mut by_bits = Glowworm::default();
    for bit in [1, 0, 1, 0, 1, 1, 0, 1, 1, 0, 0, 0, 0, 0, 0, 0] {
        by_bits.add_bit(bit);
    }
    assert_eq!(by_write.s, by_bits.s);
    assert_eq!(by_write.n, by_bits.n);
}

#[test]
fn write_matches_per_byte_writes() {
    let mut whole = Glowworm::default();
    whole.write(&[0x00, 0x7A, 0xFF, 0x80]);

    let mut parts = Glowworm::default();
    parts.write_u8(0x00);
    parts.write_u8(0x7A);
    parts.write_u8(0xFF);
    parts.write_u8(0x80);

    assert_eq!(whole, parts);
}

#[test]
fn empty_write_changes_nothing() {
    let mut gw = Glowworm::default();
    gw.write(&[]);
    assert_eq!(gw, Glowworm::default());
}

#[test]
fn finish_is_cached_and_current_is_live() {
    // Absorption never touches the cached output; current() tracks the
    // live ring entry that add_bit returns.
    let mut gw = Glowworm::default();
    assert_eq!(gw.finish(), CHECKVALUE);
    assert_eq!(gw.current(), CHECKVALUE);

    let hash = gw.add_bit(1);
    assert_eq!(gw.finish(), CHECKVALUE);
    assert_eq!(gw.current(), hash);
    assert_eq!(gw.current(), 12612998674271867816);

    gw.write(&[0x5C, 0x33]);
    assert_eq!(gw.finish(), CHECKVALUE);
}

#[test]
fn delete_retraces_every_intermediate_hash() {
    // Absorb a mixed bit sequence, recording each hash, then delete the
    // bits in reverse and check every intermediate hash reappears.
    let bits = [1u64, 0, 1, 1, 0, 0, 1, 0, 1, 1];
    let mut gw = Glowworm::default();
    let mut hashes = vec![gw.current()];
    for &b in bits.iter() {
        hashes.push(gw.add_bit(b));
    }
    for i in (0..bits.len()).rev() {
        let h = gw.del_bit(bits[i]);
        assert_eq!(h, hashes[i]);
    }
    // Ring, position and cached output are restored; only the transient
    // scratch register keeps the last recomputed diffusion value.
    let def = Glowworm::default();
    assert_eq!(gw.s, def.s);
    assert_eq!(gw.n, def.n);
    assert_eq!(gw.h, def.h);
}

#[test]
fn add_bit_treats_any_nonzero_as_true() {
    let mut a = Glowworm::default();
    let mut b = Glowworm::default();
    let mut c = Glowworm::default();
    let ha = a.add_bit(1);
    let hb = b.add_bit(2);
    let hc = c.add_bit(0xFFFF_FFFF_FFFF_FFFF);
    assert_eq!(ha, hb);
    assert_eq!(ha, hc);
    assert_eq!(a, b);
}

#[test]
fn add_bit_touches_one_slot_only() {
    // The forward step must change exactly one ring entry — the one at
    // (position + 1) mod 32 — and advance the position by exactly one.
    let mut gw = Glowworm::default();
    let before = gw.s;
    let n_before = gw.n;
    gw.add_bit(1);
    assert_eq!(gw.n, n_before + 1);
    let changed = (n_before + 1) % 32;
    for i in 0..32 {
        if i == changed {
            assert_ne!(gw.s[i], before[i]);
        } else {
            assert_eq!(gw.s[i], before[i]);
        }
    }
}
