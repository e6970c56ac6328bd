use omoya::protocols::{advertised, withheld, Served};
use omoya::role::{PlacementConfig, WindowRole};
use std::collections::BTreeSet;

#[test]
fn policy_table() {
    let m = WindowRole::Managed.policy();
    assert!(m.is_decorated() && m.movable && m.resizable && m.snappable);
    assert!(m.sized_by_compositor && !m.centred);

    let o = WindowRole::Overlay.policy();
    assert!(!o.is_decorated() && !o.movable && !o.resizable && !o.snappable);
    assert!(!o.sized_by_compositor && o.centred);
}

#[test]
fn an_overlay_cannot_produce_proof_of_decoration() {
    assert!(WindowRole::Overlay.policy().decorated().is_none());
    assert!(WindowRole::Managed.policy().decorated().is_some());
}

#[test]
fn role_the_launcher_is_an_overlay_and_a_terminal_is_not() {
    let cfg = PlacementConfig::default();
    assert_eq!(WindowRole::of_app_id(Some("tobira"), &cfg), WindowRole::Overlay);
    assert_eq!(WindowRole::of_app_id(Some("mado"), &cfg), WindowRole::Managed);
    assert_eq!(WindowRole::of_app_id(None, &cfg), WindowRole::Managed);
}

#[test]
fn the_scan_finds_the_delegates_at_all() {
    let found: BTreeSet<&str> = advertised().iter().map(|p| p.delegate).collect();
    assert!(found.len() >= 10, "the catalog holds only {} delegates: {found:?}", found.len());
}

#[test]
fn every_delegate_declares_what_serves_it() {
    for p in advertised() {
        assert!(!p.delegate.is_empty() && !p.interface.is_empty());
    }
}

#[test]
fn a_served_claim_names_somewhere_to_look() {
    for p in advertised() {
        let s = match p.served {
            Served::By(s) | Served::HintOnly(s) => s,
        };
        assert!(s.len() > 12, "{}: `served` must name where the promise is kept", p.interface);
    }
}

#[test]
fn interfaces_and_delegates_are_unique() {
    let all = advertised();
    let ifaces: BTreeSet<&str> = all.iter().map(|p| p.interface).collect();
    assert_eq!(ifaces.len(), all.len(), "duplicate interface");
    let dels: BTreeSet<&str> = all.iter().map(|p| p.delegate).collect();
    assert_eq!(dels.len(), all.len(), "duplicate delegate");
}

#[test]
fn withheld_protocols_carry_a_reason_and_do_not_overlap() {
    for (name, why) in withheld() {
        assert!(why.len() > 40, "{name}: a withheld protocol needs a REASON");
    }
    let ifaces: BTreeSet<&str> = advertised().iter().map(|p| p.interface).collect();
    for (name, _) in withheld() {
        assert!(!ifaces.contains(name), "{name} is listed as both advertised and withheld");
    }
}

#[test]
fn relative_pointer_is_advertised_now_that_input_sends_it() {
    assert!(
        advertised().iter().any(|p| p.delegate == "relative_pointer"),
        "relative motion is sent into a protocol we do not advertise"
    );
}
