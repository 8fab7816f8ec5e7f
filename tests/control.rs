use texatlas::{Latch, RevCtrl, RevMode, SceneIdent, SceneIdentMaster, Trigger};

#[test]
fn reversible_control_follows_exclusive_inputs() {
    let mut c = RevCtrl::default();
    assert_eq!(c.get_mode(), RevMode::Brake);
    assert!(!c.is_triggered());
    c.input(RevMode::Forward, true);
    assert_eq!(c.get_mode(), RevMode::Forward);
    c.update();
    c.update();
    assert_eq!(c.get_trig_count(), 2);
    // Releasing the other direction does nothing.
    c.input(RevMode::Backward, false);
    assert_eq!(c.get_mode(), RevMode::Forward);
    assert!(c.is_triggered());
    c.input(RevMode::Backward, true);
    assert_eq!(c.get_mode(), RevMode::Backward);
    c.input(RevMode::Backward, false);
    assert_eq!(c.get_mode(), RevMode::Brake);
    assert!(!c.is_triggered());
    c.update();
    assert_eq!(c.get_trig_count(), 0);
}

#[test]
fn trigger_counts_held_frames() {
    let mut t = Trigger::default();
    t.update();
    assert_eq!(t.get_trig_count(), 0);
    t.trigger(true);
    for _ in 0..3 {
        t.update();
    }
    assert!(t.is_triggered());
    assert_eq!(t.get_trig_count(), 3);
    t.trigger(false);
    t.update();
    assert!(!t.is_triggered());
    assert_eq!(t.get_trig_count(), 0);
}

#[test]
fn latch_flips_on_fresh_presses() {
    let mut l = Latch::default();
    l.trigger(true);
    assert!(l.is_latch_on());
    l.update();
    assert_eq!((l.latch_on_count(), l.latch_off_count()), (1, 0));
    // Still held: no flip.
    l.trigger(true);
    assert!(l.is_latch_on());
    l.trigger(false);
    l.update();
    l.trigger(true);
    assert!(!l.is_latch_on());
    l.update();
    assert_eq!((l.latch_on_count(), l.latch_off_count()), (0, 1));
}

#[test]
fn scene_idents_are_issued_in_sequence() {
    let mut m = SceneIdentMaster::default();
    assert_eq!(m.issue(), SceneIdent(0));
    assert_eq!(m.issue(), SceneIdent(1));
    assert_eq!(m.issue(), SceneIdent(2));
}
