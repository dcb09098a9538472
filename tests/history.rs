use boid_sir::history::SirGraph;
use boid_sir::sim::SirCounts;

fn c(s: usize) -> SirCounts {
    SirCounts { susceptible: s, infected: 0, recovered: 0 }
}

#[test]
fn history_keeps_the_most_recent_entries() {
    let mut g = SirGraph::new(3);
    assert!(g.entries_vec().is_empty());
    g.push(c(1));
    g.push(c(2));
    assert_eq!(g.entries_vec(), &vec![c(1), c(2)]);
    g.push(c(3));
    g.push(c(4));
    assert_eq!(g.entries_vec(), &vec![c(2), c(3), c(4)]);
    g.push(c(5));
    assert_eq!(g.entries_vec(), &vec![c(3), c(4), c(5)]);
}

#[test]
fn history_of_one() {
    let mut g = SirGraph::new(1);
    g.push(c(1));
    g.push(c(2));
    assert_eq!(g.entries_vec(), &vec![c(2)]);
}
