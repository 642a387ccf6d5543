//! The keyed tables that hold the library's state.

use edge_ingest::model::Listing;
use edge_ingest::recent::Recent;
use edge_ingest::table::Table;

fn at(symbol: &str) -> Listing {
    Listing {
        venue: "V".into(),
        symbol: symbol.into(),
    }
}

#[test]
fn a_table_answers_with_what_was_last_put() {
    let mut t: Table<Listing, u32> = Table::new();
    assert_eq!(t.get(&at("a")), None);
    t.insert(at("a"), 1);
    t.insert(at("b"), 2);
    t.insert(at("a"), 3);
    assert_eq!(t.len(), 2);
    assert_eq!(t.get(&at("a")), Some(&3));
    assert_eq!(t.get(&at("b")), Some(&2));
    assert_eq!(t.remove(&at("a")), Some(3));
    assert_eq!(t.remove(&at("a")), None);
    assert!(!t.contains_key(&at("a")));
    assert!(t.contains_key(&at("b")));
}

#[test]
fn a_table_drops_what_a_predicate_picks() {
    let mut t: Table<Listing, u32> = Table::new();
    for n in 0..100u32 {
        t.insert(at(&n.to_string()), n);
    }
    assert_eq!(t.remove_where(|l: &Listing| l.symbol.ends_with('3')), 10);
    assert_eq!(t.len(), 90);
    assert_eq!(t.get(&at("13")), None);
    for n in (0..100u32).filter(|n| n % 10 != 3) {
        assert_eq!(t.get(&at(&n.to_string())), Some(&n));
    }
}

#[test]
fn removing_an_entry_keeps_the_others_findable() {
    let mut t: Table<Listing, u32> = Table::new();
    for n in 0..50u32 {
        t.insert(at(&n.to_string()), n);
    }
    for n in (0..50u32).step_by(2) {
        assert_eq!(t.remove(&at(&n.to_string())), Some(n));
    }
    for n in 0..50u32 {
        let left = if n % 2 == 0 { None } else { Some(n) };
        assert_eq!(t.get(&at(&n.to_string())).copied(), left);
    }
}

#[test]
fn recent_entries_leave_oldest_first() {
    let mut r: Recent<Listing, u32> = Recent::new();
    for n in 0..5u32 {
        r.push(at(&n.to_string()), n);
    }
    r.set(at("0"), 10);
    assert_eq!(r.oldest().map(|(k, v)| (k.symbol.clone(), *v)), Some(("0".to_string(), 10)));
    r.trim(5);
    assert_eq!(r.len(), 5);
    r.trim(4);
    r.trim(3);
    assert_eq!(r.len(), 3);
    assert!(!r.contains(&at("0")) && !r.contains(&at("1")));
    r.forget(&vec![at("3"), at("9")]);
    assert_eq!(r.pop().map(|(k, v)| (k.symbol, v)), Some(("2".to_string(), 2)));
    assert_eq!(r.pop().map(|(k, v)| (k.symbol, v)), Some(("4".to_string(), 4)));
    assert!(r.pop().is_none());
}
