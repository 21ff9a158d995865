use ditto::counter::SiteCounters;
use ditto::Replica;

#[test]
fn site_counters_accept_each_increment_once() {
    let mut counters = SiteCounters::new();
    assert!(counters.is_empty());
    assert!(counters.accept(&Replica::new(3, 0)));
    assert!(!counters.accept(&Replica::new(3, 0)));
    assert!(counters.accept(&Replica::new(3, 4)));
    assert!(!counters.accept(&Replica::new(3, 2)));
    assert!(counters.get(3) == Some(4));
    assert!(counters.get(7) == None);
}

#[test]
fn site_counters_add_site_moves_the_siteless_entry() {
    let mut counters = SiteCounters::new();
    counters.record(&Replica::new(0, 2));
    counters.add_site(17);
    assert!(counters.get(17) == Some(2));
    assert!(counters.get(0) == None);
    let mut other = SiteCounters::new();
    other.record(&Replica::new(5, 1));
    other.add_site(17);
    assert!(other.get(5) == Some(1) && other.get(17) == None);
}
