use wordcast::ports::{PortSearch, BASE_PORT};

#[test]
fn first_candidate_is_the_base_port() {
    let mut search = PortSearch::new();
    assert_eq!(search.next_port(), Some(BASE_PORT));
}

#[test]
fn occupied_port_advances_to_the_next_candidate() {
    // The caller finds the base port occupied and asks again: it must be
    // offered the next port up, so startup still succeeds.
    let mut search = PortSearch::new();
    assert_eq!(search.next_port(), Some(7400));
    assert_eq!(search.next_port(), Some(7401));
    assert_eq!(search.next_port(), Some(7402));
}

#[test]
fn candidates_run_to_the_top_of_the_range_then_stop() {
    let mut search = PortSearch::new();
    let mut count: u32 = 0;
    let mut last = 0u16;
    while let Some(p) = search.next_port() {
        last = p;
        count += 1;
    }
    assert_eq!(last, u16::MAX);
    assert_eq!(count, u16::MAX as u32 - BASE_PORT as u32 + 1);
    assert_eq!(search.next_port(), None);
}
