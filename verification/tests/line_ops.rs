use logic::line::{and, nand, nor, not, or, xnor, xor, Line};

fn all_lines() -> [Line; 3] {
    [Line::High, Line::Low, Line::Disconnected]
}

#[test]
fn double_negation_lands_on_driven_values() {
    // not is not an involution across Disconnected: a double negation of
    // Disconnected lands on Low, not back on Disconnected.
    assert!(not(Line::High).is_low());
    assert!(not(Line::Low).is_high());
    assert!(not(not(Line::High)).is_high());
    assert!(not(not(Line::Low)).is_low());
    assert!(not(Line::Disconnected).is_high());
    assert!(not(not(Line::Disconnected)).is_low());
    assert!(!not(not(Line::Disconnected)).is_disconnected());
}

#[test]
fn and_high_iff_both_high() {
    for a in all_lines() {
        for b in all_lines() {
            let r = and(a, b);
            assert_eq!(r.is_high(), a.is_high() && b.is_high());
            // every other case collapses to Low, never Disconnected
            if !r.is_high() {
                assert!(r.is_low());
            }
        }
    }
}

#[test]
fn or_high_iff_either_high() {
    for a in all_lines() {
        for b in all_lines() {
            let r = or(a, b);
            assert_eq!(r.is_high(), a.is_high() || b.is_high());
            if !r.is_high() {
                assert!(r.is_low());
            }
        }
    }
}

#[test]
fn nand_nor_complement_and_or() {
    for a in all_lines() {
        for b in all_lines() {
            assert_eq!(nand(a, b).is_high(), !and(a, b).is_high());
            assert_eq!(nor(a, b).is_high(), !or(a, b).is_high());
        }
    }
}

#[test]
fn xor_passes_disconnected_through() {
    // if the first operand is High the result inverts the second; else the
    // second operand passes through unchanged, Disconnected included
    assert!(xor(Line::High, Line::High).is_low());
    assert!(xor(Line::High, Line::Low).is_high());
    assert!(xor(Line::High, Line::Disconnected).is_high());
    assert!(xor(Line::Low, Line::Disconnected).is_disconnected());
    assert!(xor(Line::Disconnected, Line::Disconnected).is_disconnected());
    assert!(xor(Line::Low, Line::High).is_high());
    assert!(xor(Line::Disconnected, Line::High).is_high());
}

#[test]
fn xnor_complements_xor_under_the_same_rule() {
    assert!(xnor(Line::High, Line::High).is_high());
    assert!(xnor(Line::High, Line::Disconnected).is_disconnected());
    assert!(xnor(Line::Low, Line::Low).is_high());
    assert!(xnor(Line::Disconnected, Line::Low).is_high());
    assert!(xnor(Line::Low, Line::High).is_low());
}

#[test]
fn equality_reads_undriven_as_low() {
    assert!(Line::Low == Line::Disconnected);
    assert!(Line::Disconnected == Line::Low);
    assert!(Line::Low == Line::Low);
    assert!(Line::Disconnected == Line::Disconnected);
    assert!(Line::High == Line::High);
    assert!(Line::High != Line::Low);
    assert!(Line::High != Line::Disconnected);
    // the three states remain distinct for storage
    assert!(Line::Disconnected.is_disconnected());
    assert!(!Line::Low.is_disconnected());
}

#[test]
fn boolean_coercion() {
    assert!(Line::High.to_bool());
    assert!(!Line::Low.to_bool());
    assert!(!Line::Disconnected.to_bool());
    assert!(Line::from_bool(true).is_high());
    assert!(Line::from_bool(false).is_low());
}
