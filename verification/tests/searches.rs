use angora_search::cbh::CbhSearch;
use angora_search::cond::{SCond, TagSeg};
use angora_search::mb::MbSearch;
use angora_search::random::RandomSearch;
use angora_search::search::{Action, Event, Mutation};

fn record(cmpid: u32) -> SCond {
    SCond::new(cmpid, vec![TagSeg { sign: false, begin: 0, end: 2 }])
}

fn executed(fitness: u64, value: &[u8], discovered: Vec<SCond>) -> Event {
    Event::Executed { fitness, value: value.to_vec(), discovered }
}

fn keep(value: &[u8]) -> Option<Action> {
    Some(Action::Execute { value: value.to_vec(), mutation: Mutation::Keep })
}

fn randomize(value: &[u8], enable_dict: bool) -> Option<Action> {
    Some(Action::Execute { value: value.to_vec(), mutation: Mutation::Randomize { enable_dict } })
}

fn poll(fold: Vec<SCond>) -> Option<Action> {
    Some(Action::Poll { fold })
}

fn finish(binding: Option<&[u8]>) -> Option<Action> {
    Some(Action::Finish { binding: binding.map(|b| b.to_vec()) })
}

#[test]
fn hill_climb_walk_through() {
    let mut search = CbhSearch::new(b"AAAA".to_vec(), b"BBBB".to_vec(), true);
    assert_eq!(search.run(Event::Begin), keep(b"AAAA"));
    assert_eq!(search.run(executed(50, b"AAAA", vec![record(1)])), keep(b"BBBB"));
    assert_eq!(search.run(executed(50, b"BBBB", vec![record(2)])), poll(vec![]));
    assert_eq!(search.run(Event::Polled { stopped: false }), randomize(b"AAAA", true));
    assert_eq!(search.run(executed(30, b"CCCC", vec![record(3)])), poll(vec![record(3)]));
    assert_eq!(search.run(Event::Polled { stopped: false }), randomize(b"CCCC", true));
    assert_eq!(search.run(executed(30, b"DDDD", vec![])), poll(vec![]));
    assert_eq!(search.run(Event::Polled { stopped: false }), randomize(b"CCCC", true));
    assert_eq!(
        search.run(executed(45, b"EEEE", vec![record(4), record(5)])),
        poll(vec![record(4), record(5)])
    );
    assert_eq!(search.run(Event::Polled { stopped: true }), finish(Some(b"CCCC")));
    assert_eq!(search.run(Event::Polled { stopped: false }), None);
    assert_eq!(search.run(Event::Begin), None);
    assert_eq!(search.run(executed(0, b"ZZZZ", vec![])), None);
}

#[test]
fn hill_climb_skips_a_binding_of_another_length() {
    let mut search = CbhSearch::new(b"AAAA".to_vec(), b"BB".to_vec(), true);
    assert_eq!(search.run(Event::Begin), keep(b"AAAA"));
    assert_eq!(search.run(executed(9, b"AAAA", vec![record(1)])), poll(vec![]));
    assert_eq!(search.run(Event::Polled { stopped: true }), finish(Some(b"AAAA")));
}

#[test]
fn hill_climb_adopts_a_better_binding() {
    let mut search = CbhSearch::new(b"AAAA".to_vec(), b"BBBB".to_vec(), false);
    assert_eq!(search.run(Event::Begin), keep(b"AAAA"));
    assert_eq!(search.run(executed(9, b"AAAA", vec![])), keep(b"BBBB"));
    assert_eq!(search.run(executed(8, b"BBBB", vec![])), poll(vec![]));
    assert_eq!(search.run(Event::Polled { stopped: false }), randomize(b"BBBB", false));
    assert_eq!(search.run(executed(8, b"CCCC", vec![])), poll(vec![]));
    assert_eq!(search.run(Event::Polled { stopped: true }), finish(Some(b"BBBB")));
}

#[test]
fn hill_climb_folds_whatever_the_dictionary_setting() {
    let mut search = CbhSearch::new(b"A".to_vec(), Vec::new(), false);
    assert_eq!(search.run(Event::Begin), keep(b"A"));
    assert_eq!(search.run(executed(5, b"A", vec![record(1)])), poll(vec![]));
    assert_eq!(search.run(Event::Polled { stopped: false }), randomize(b"A", false));
    assert_eq!(search.run(executed(1, b"B", vec![record(2)])), poll(vec![record(2)]));
    assert_eq!(search.run(Event::Polled { stopped: false }), randomize(b"B", false));
    assert_eq!(search.run(executed(9, b"C", vec![record(3)])), poll(vec![record(3)]));
    assert_eq!(search.run(Event::Polled { stopped: true }), finish(Some(b"B")));
}

#[test]
fn hill_climb_refuses_events_out_of_turn() {
    let mut search = CbhSearch::new(b"AB".to_vec(), b"CD".to_vec(), true);
    assert_eq!(search.run(Event::Polled { stopped: true }), None);
    assert_eq!(search.run(executed(1, b"AB", vec![])), None);
    assert_eq!(search.run(Event::Begin), keep(b"AB"));
    assert_eq!(search.run(Event::Begin), None);
    assert_eq!(search.run(Event::Polled { stopped: true }), None);
    assert_eq!(search.run(executed(7, b"AB", vec![])), keep(b"CD"));
    assert_eq!(search.run(Event::Polled { stopped: true }), None);
    assert_eq!(search.run(executed(7, b"CD", vec![])), poll(vec![]));
    assert_eq!(search.run(executed(0, b"XX", vec![])), None);
    assert_eq!(search.run(Event::Polled { stopped: true }), finish(Some(b"AB")));
}

#[test]
fn incumbent_fitness_never_rises_and_first_lowest_wins() {
    let fitness = [9u64, 7, 7, 8, 3, 3, 12, 3];
    let mut search = CbhSearch::new(vec![0], vec![1], true);
    assert_eq!(search.run(Event::Begin), keep(&[0]));
    assert_eq!(search.run(executed(fitness[0], &[0], vec![])), keep(&[1]));
    assert_eq!(search.run(executed(fitness[1], &[1], vec![])), poll(vec![]));
    let mut best = fitness[0].min(fitness[1]);
    let mut incumbent: Vec<u8> = vec![1];
    let mut adopted = vec![best];
    for i in 2..fitness.len() {
        assert_eq!(search.run(Event::Polled { stopped: false }), randomize(&incumbent, true));
        assert_eq!(search.run(executed(fitness[i], &[i as u8], vec![])), poll(vec![]));
        if fitness[i] < best {
            best = fitness[i];
            incumbent = vec![i as u8];
            adopted.push(best);
        }
    }
    assert_eq!(adopted, vec![7, 3]);
    assert_eq!(search.run(Event::Polled { stopped: true }), finish(Some(&[4])));
}

#[test]
fn random_search_walk_through() {
    let mut search = RandomSearch::new(b"AAAA".to_vec(), true);
    assert_eq!(search.run(Event::Begin), poll(vec![]));
    assert_eq!(search.run(Event::Polled { stopped: false }), randomize(b"AAAA", true));
    assert_eq!(search.run(executed(1, b"QQQQ", vec![record(1)])), poll(vec![record(1)]));
    assert_eq!(search.run(Event::Polled { stopped: false }), randomize(b"AAAA", true));
    assert_eq!(search.run(executed(0, b"RRRR", vec![])), poll(vec![]));
    assert_eq!(search.run(Event::Polled { stopped: true }), finish(None));
    assert_eq!(search.run(Event::Polled { stopped: true }), None);
    assert_eq!(search.run(Event::Begin), None);
}

#[test]
fn random_search_stops_before_any_execution() {
    let mut search = RandomSearch::new(Vec::new(), false);
    assert_eq!(search.run(executed(1, b"", vec![])), None);
    assert_eq!(search.run(Event::Begin), poll(vec![]));
    assert_eq!(search.run(Event::Begin), None);
    assert_eq!(search.run(Event::Polled { stopped: true }), finish(None));
}

#[test]
fn random_search_folds_whatever_the_dictionary_setting() {
    let mut search = RandomSearch::new(b"AB".to_vec(), false);
    assert_eq!(search.run(Event::Begin), poll(vec![]));
    assert_eq!(search.run(Event::Polled { stopped: false }), randomize(b"AB", false));
    assert_eq!(search.run(executed(1, b"CD", vec![record(1)])), poll(vec![record(1)]));
}

#[test]
fn magic_bytes_walk_through() {
    let mut search = MbSearch::new(b"AAAA".to_vec(), b"\x89PNG".to_vec(), true);
    assert_eq!(search.run(Event::Begin), keep(b"\x89PNG"));
    assert_eq!(search.run(executed(0, b"\x89PNG", vec![record(1)])), poll(vec![record(1)]));
    assert_eq!(search.run(Event::Polled { stopped: false }), randomize(b"AAAA", true));
    assert_eq!(search.run(executed(3, b"QQQQ", vec![record(2)])), poll(vec![record(2)]));
    assert_eq!(search.run(Event::Polled { stopped: false }), randomize(b"AAAA", true));
    assert_eq!(search.run(executed(3, b"RRRR", vec![])), poll(vec![]));
    assert_eq!(search.run(Event::Polled { stopped: true }), finish(None));
    assert_eq!(search.run(executed(3, b"RRRR", vec![])), None);
}

#[test]
fn magic_bytes_plants_a_binding_of_any_length() {
    let mut search = MbSearch::new(b"AAAA".to_vec(), b"GIF89a".to_vec(), false);
    assert_eq!(search.run(Event::Polled { stopped: false }), None);
    assert_eq!(search.run(Event::Begin), keep(b"GIF89a"));
    assert_eq!(search.run(Event::Polled { stopped: false }), None);
    assert_eq!(search.run(executed(1, b"GIF8", vec![record(1)])), poll(vec![record(1)]));
    assert_eq!(search.run(Event::Polled { stopped: false }), randomize(b"AAAA", false));
    assert_eq!(search.run(executed(1, b"ZZZZ", vec![record(2)])), poll(vec![record(2)]));
}

fn executions_after_stop(mut step: impl FnMut(Event) -> Option<Action>, first: Event) -> usize {
    let mut count = 0;
    let mut event = first;
    for _ in 0..10 {
        event = match step(event) {
            Some(Action::Execute { value, .. }) => {
                count += 1;
                Event::Executed { fitness: 1, value, discovered: vec![] }
            }
            Some(Action::Poll { .. }) => Event::Polled { stopped: true },
            Some(Action::Finish { .. }) => return count,
            None => panic!("the search refused the event it asked for"),
        };
    }
    panic!("the search did not finish");
}

#[test]
fn a_stop_ends_every_search_within_one_execution() {
    let mut random = RandomSearch::new(b"AB".to_vec(), true);
    assert_eq!(executions_after_stop(|e| random.run(e), Event::Begin), 0);

    let mut mb = MbSearch::new(b"AB".to_vec(), b"CD".to_vec(), true);
    assert_eq!(executions_after_stop(|e| mb.run(e), Event::Begin), 1);

    let mut cbh = CbhSearch::new(b"AB".to_vec(), b"C".to_vec(), true);
    assert_eq!(executions_after_stop(|e| cbh.run(e), Event::Begin), 1);

    let mut cbh = CbhSearch::new(b"AB".to_vec(), b"CD".to_vec(), true);
    assert_eq!(cbh.run(Event::Begin), keep(b"AB"));
    assert_eq!(executions_after_stop(|e| cbh.run(e), executed(4, b"AB", vec![])), 1);

    let mut cbh = CbhSearch::new(b"AB".to_vec(), b"CD".to_vec(), true);
    assert_eq!(cbh.run(Event::Begin), keep(b"AB"));
    assert_eq!(cbh.run(executed(4, b"AB", vec![])), keep(b"CD"));
    assert_eq!(cbh.run(executed(4, b"CD", vec![])), poll(vec![]));
    assert_eq!(cbh.run(Event::Polled { stopped: false }), randomize(b"AB", true));
    assert_eq!(executions_after_stop(|e| cbh.run(e), executed(2, b"XY", vec![])), 0);
}
