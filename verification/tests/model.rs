use margolus::block::Block;
use margolus::palette::{Element, IndexError, Rgba, SimIntrinsics};
use margolus::sim::Sim;
use margolus::table::{Rule, RuleTable};

fn blk(a: usize, b: usize, c: usize, d: usize) -> Block {
    Block { a, b, c, d }
}

#[test]
fn mirror_swaps_columns() {
    assert_eq!(blk(1, 0, 1, 0).mirror(), blk(0, 1, 0, 1));
    assert_eq!(blk(0, 0, 1, 1).mirror(), blk(0, 0, 1, 1));
    assert_eq!(blk(1, 2, 3, 4).mirror(), blk(2, 1, 4, 3));
}

#[test]
fn mirror_is_an_involution() {
    for a in 0..3 {
        for b in 0..3 {
            for c in 0..3 {
                for d in 0..3 {
                    let x = blk(a, b, c, d);
                    assert_eq!(x.mirror().mirror(), x);
                }
            }
        }
    }
}

#[test]
fn canonical_is_shared_by_the_orbit() {
    let p = blk(1, 0, 1, 0);
    assert_eq!(p.canonical(), p.mirror().canonical());
    assert_eq!(p.canonical(), blk(0, 1, 0, 1));
    let s = blk(2, 2, 0, 0);
    assert_eq!(s.canonical(), s);
}

#[test]
fn starting_palette_is_off_and_on() {
    let sim = Sim::starting();
    assert_eq!(sim.num_elements(), 2);
    let off = sim.element(0).unwrap();
    assert_eq!(off.name, "Off");
    assert_eq!(off.color, Rgba { r: 0, g: 0, b: 0, a: 255 });
    let on = sim.element(1).unwrap();
    assert_eq!(on.name, "On");
    assert_eq!(on.color, Rgba { r: 255, g: 255, b: 255, a: 255 });
    assert!(sim.symmetry().horizontal);
    assert_eq!(sim.num_rules(), 0);
}

#[test]
fn mirrored_lookup_resolves_from_one_entry() {
    // Palette [Off, On], horizontal mirror on: storing one orientation
    // makes the mirrored input resolve to the mirrored output.
    let mut sim = Sim::starting();
    let conflict = sim.set_rule(blk(1, 0, 1, 0), blk(0, 0, 1, 1)).unwrap();
    assert!(!conflict);
    assert_eq!(sim.lookup(blk(1, 0, 1, 0)), Some(blk(0, 0, 1, 1)));
    // The mirrored input resolves to the mirrored output; this output
    // happens to be its own mirror, so the same block comes back.
    assert_eq!(sim.lookup(blk(0, 1, 0, 1)), Some(blk(0, 0, 1, 1).mirror()));
    assert_eq!(sim.lookup(blk(0, 1, 0, 1)), Some(blk(0, 0, 1, 1)));
    assert_eq!(sim.num_rules(), 1);
    // An output with four distinct cells shows the mirroring itself.
    let mut wide = Sim::starting();
    wide.resize_palette(5);
    wide.set_rule(blk(1, 0, 1, 0), blk(1, 2, 3, 4)).unwrap();
    assert_eq!(wide.lookup(blk(0, 1, 0, 1)), Some(blk(2, 1, 4, 3)));
}

#[test]
fn growth_appends_defaults_and_keeps_rules() {
    let mut sim = Sim::starting();
    sim.set_rule(blk(1, 0, 1, 0), blk(0, 0, 1, 1)).unwrap();
    sim.resize_palette(4);
    assert_eq!(sim.num_elements(), 4);
    assert_eq!(sim.element(0).unwrap().name, "Off");
    assert_eq!(sim.element(1).unwrap().name, "On");
    for idx in 2..4 {
        let e = sim.element(idx).unwrap();
        assert_eq!(e.name, "New element");
        assert_eq!(e.color, Rgba { r: 0, g: 255, b: 0, a: 255 });
    }
    assert_eq!(sim.num_rules(), 1);
    assert_eq!(sim.lookup(blk(1, 0, 1, 0)), Some(blk(0, 0, 1, 1)));
}

#[test]
fn shrink_drops_rules_with_stale_indices() {
    let mut sim = Sim::starting();
    sim.resize_palette(4);
    sim.set_rule(blk(3, 0, 0, 0), blk(0, 0, 0, 3)).unwrap();
    sim.set_rule(blk(1, 0, 1, 0), blk(0, 0, 1, 1)).unwrap();
    assert_eq!(sim.num_rules(), 2);
    sim.resize_palette(2);
    assert_eq!(sim.num_elements(), 2);
    assert_eq!(sim.num_rules(), 1);
    for rule in sim.rules() {
        for idx in [rule.input.a, rule.input.b, rule.input.c, rule.input.d] {
            assert!(idx < 2);
        }
        for idx in [rule.output.a, rule.output.b, rule.output.c, rule.output.d] {
            assert!(idx < 2);
        }
    }
    assert_eq!(sim.lookup(blk(3, 0, 0, 0)), None);
    assert_eq!(sim.lookup(blk(1, 0, 1, 0)), Some(blk(0, 0, 1, 1)));
}

#[test]
fn disabled_symmetry_does_not_mirror() {
    let mut sim = Sim::starting();
    sim.set_horizontal(false);
    sim.set_rule(blk(0, 1, 0, 1), blk(1, 1, 0, 0)).unwrap();
    assert_eq!(sim.lookup(blk(1, 0, 1, 0)), None);
    assert_eq!(sim.lookup(blk(0, 1, 0, 1)), Some(blk(1, 1, 0, 0)));
}

#[test]
fn overwrite_keeps_one_entry_per_input() {
    let mut sim = Sim::starting();
    sim.set_rule(blk(0, 0, 0, 0), blk(1, 1, 1, 1)).unwrap();
    sim.set_rule(blk(0, 0, 0, 0), blk(0, 1, 0, 1)).unwrap();
    assert_eq!(sim.num_rules(), 1);
    assert_eq!(sim.lookup(blk(0, 0, 0, 0)), Some(blk(0, 1, 0, 1)));
    assert_eq!(sim.lookup(blk(0, 0, 0, 0)), Some(blk(0, 1, 0, 1)));
}

#[test]
fn conflicting_mirror_write_wins_and_is_reported() {
    let mut sim = Sim::starting();
    let first = sim.set_rule(blk(1, 0, 1, 0), blk(0, 0, 1, 1)).unwrap();
    assert!(!first);
    // The mirrored orientation already resolves; a disagreeing write on
    // it is a symmetry conflict, and the new rule wins.
    let second = sim.set_rule(blk(0, 1, 0, 1), blk(1, 1, 1, 1)).unwrap();
    assert!(second);
    assert_eq!(sim.lookup(blk(0, 1, 0, 1)), Some(blk(1, 1, 1, 1)));
    assert_eq!(sim.lookup(blk(1, 0, 1, 0)), Some(blk(1, 1, 1, 1).mirror()));
    assert_eq!(sim.num_rules(), 1);
    // An agreeing write is no conflict.
    let third = sim.set_rule(blk(0, 1, 0, 1), blk(1, 1, 1, 1)).unwrap();
    assert!(!third);
}

#[test]
fn self_mirrored_input_constrains_only_itself() {
    let mut sim = Sim::starting();
    let input = blk(1, 1, 0, 0);
    assert_eq!(input.mirror(), input);
    let conflict = sim.set_rule(input, blk(1, 0, 0, 1)).unwrap();
    assert!(!conflict);
    assert_eq!(sim.lookup(input), Some(blk(1, 0, 0, 1)));
}

#[test]
fn orbits_resolve_consistently_under_the_mirror() {
    // After any writes made with the mirror enabled, the two members of
    // a non-self-mirrored orbit resolve to mirrored outputs.
    let mut sim = Sim::starting();
    sim.set_rule(blk(1, 0, 1, 0), blk(0, 0, 1, 1)).unwrap();
    sim.set_rule(blk(1, 1, 0, 1), blk(0, 0, 0, 0)).unwrap();
    sim.set_rule(blk(0, 0, 0, 0), blk(1, 1, 1, 1)).unwrap();
    sim.remove_rule(blk(0, 0, 0, 0));
    for a in 0..2 {
        for b in 0..2 {
            for c in 0..2 {
                for d in 0..2 {
                    let p = blk(a, b, c, d);
                    if p.mirror() == p {
                        continue;
                    }
                    assert_eq!(sim.lookup(p.mirror()), sim.lookup(p).map(|o| o.mirror()));
                }
            }
        }
    }
}

#[test]
fn out_of_range_blocks_are_rejected() {
    let mut sim = Sim::starting();
    assert_eq!(sim.set_rule(blk(2, 0, 0, 0), blk(0, 0, 0, 0)), Err(IndexError));
    assert_eq!(sim.set_rule(blk(0, 0, 0, 0), blk(0, 0, 0, 2)), Err(IndexError));
    assert_eq!(sim.num_rules(), 0);
    assert!(sim.element(2).is_err());
    assert!(sim.element(1).is_ok());
}

#[test]
fn remove_rule_clears_the_whole_orbit() {
    let mut sim = Sim::starting();
    sim.set_rule(blk(1, 0, 1, 0), blk(0, 0, 1, 1)).unwrap();
    sim.remove_rule(blk(0, 1, 0, 1));
    assert_eq!(sim.lookup(blk(1, 0, 1, 0)), None);
    assert_eq!(sim.lookup(blk(0, 1, 0, 1)), None);
    assert_eq!(sim.num_rules(), 0);
    // Removing an absent rule is a no-op.
    sim.remove_rule(blk(0, 0, 0, 0));
    assert_eq!(sim.num_rules(), 0);
}

#[test]
fn removing_an_element_shifts_surviving_rules() {
    let mut sim = Sim::starting();
    sim.resize_palette(4);
    sim.set_rule(blk(3, 2, 3, 2), blk(2, 2, 3, 3)).unwrap();
    sim.set_rule(blk(1, 1, 1, 1), blk(0, 0, 0, 0)).unwrap();
    sim.remove_element(1).unwrap();
    assert_eq!(sim.num_elements(), 3);
    // The rule mentioning index 1 is dropped; the other keeps pointing
    // at the same elements, now one index lower.
    assert_eq!(sim.num_rules(), 1);
    assert_eq!(sim.lookup(blk(2, 1, 2, 1)), Some(blk(1, 1, 2, 2)));
    assert_eq!(sim.lookup(blk(1, 1, 1, 1)), None);
    assert_eq!(sim.remove_element(7), Err(IndexError));
}

#[test]
fn palette_edit_keeps_rules() {
    let mut sim = Sim::starting();
    sim.set_rule(blk(1, 0, 1, 0), blk(0, 0, 1, 1)).unwrap();
    sim.set_element(1, Element { color: Rgba { r: 9, g: 8, b: 7, a: 6 }, name: String::from("Ash") })
        .unwrap();
    assert_eq!(sim.element(1).unwrap().name, "Ash");
    assert_eq!(sim.element(1).unwrap().color, Rgba { r: 9, g: 8, b: 7, a: 6 });
    assert_eq!(sim.num_rules(), 1);
    assert!(sim.set_element(5, Element::default()).is_err());
}

#[test]
fn palette_add_and_remove() {
    let mut intrin = SimIntrinsics::default();
    assert_eq!(intrin.len(), 2);
    intrin.add();
    assert_eq!(intrin.len(), 3);
    assert_eq!(intrin.get(2).unwrap().name, "New element");
    intrin.remove(0).unwrap();
    assert_eq!(intrin.len(), 2);
    assert_eq!(intrin.get(0).unwrap().name, "On");
    assert_eq!(intrin.remove(9), Err(IndexError));
    assert!(intrin.get(9).is_err());
}

#[test]
fn table_refuses_duplicate_keys() {
    let rules = vec![
        Rule { input: blk(0, 0, 0, 0), output: blk(1, 1, 1, 1) },
        Rule { input: blk(0, 0, 0, 0), output: blk(0, 0, 0, 1) },
    ];
    assert!(RuleTable::from_entries(rules).is_none());
    let distinct = vec![
        Rule { input: blk(0, 0, 0, 0), output: blk(1, 1, 1, 1) },
        Rule { input: blk(0, 0, 0, 1), output: blk(0, 0, 0, 1) },
    ];
    let table = RuleTable::from_entries(distinct).unwrap();
    assert_eq!(table.len(), 2);
    assert_eq!(table.lookup(blk(0, 0, 0, 0), false), Some(blk(1, 1, 1, 1)));
}

#[test]
fn assemble_rejects_stale_indices() {
    let intrin = SimIntrinsics::default();
    let stale = vec![Rule { input: blk(0, 0, 0, 5), output: blk(0, 0, 0, 0) }];
    assert!(Sim::assemble(intrin, stale).is_none());
    let good = vec![Rule { input: blk(0, 0, 0, 1), output: blk(1, 1, 0, 0) }];
    let sim = Sim::assemble(SimIntrinsics::default(), good).unwrap();
    assert_eq!(sim.num_rules(), 1);
}

#[test]
fn toggling_symmetry_changes_only_lookup() {
    let mut sim = Sim::starting();
    sim.set_rule(blk(1, 0, 1, 0), blk(0, 0, 1, 1)).unwrap();
    sim.set_horizontal(false);
    // The single stored entry still answers for its own orientation.
    assert_eq!(sim.num_rules(), 1);
    let stored = sim.rules()[0];
    assert_eq!(sim.lookup(stored.input), Some(stored.output));
    assert_eq!(sim.lookup(stored.input.mirror()), None);
    sim.set_horizontal(true);
    assert_eq!(sim.lookup(stored.input.mirror()), Some(stored.output.mirror()));
}

#[test]
fn integrity_survives_any_resize_sequence() {
    let mut sim = Sim::starting();
    for n in [5, 3, 7, 1, 4, 2] {
        sim.resize_palette(n);
        let limit = n - 1;
        let _ = sim.set_rule(blk(limit, 0, limit, 0), blk(0, limit, 0, limit));
        let _ = sim.remove_element(0);
        let len = sim.num_elements();
        for rule in sim.rules() {
            for idx in [
                rule.input.a,
                rule.input.b,
                rule.input.c,
                rule.input.d,
                rule.output.a,
                rule.output.b,
                rule.output.c,
                rule.output.d,
            ] {
                assert!(idx < len);
            }
        }
    }
}
