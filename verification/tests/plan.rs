use city_stats::aggregate::aggregate;
use city_stats::chunk::process_chunk;
use city_stats::planner::{plan, ByteRange, ChunkPlanner, PlanError, PlanStep, LOOKAHEAD};
use city_stats::report::report;

const SAMPLE: &[u8] = b"Oslo;-1.5\nLima;22.3\nOslo;3.0\nBern;10.0\nLima;-0.1\nBern;9.9\nAccra;31.2\n";

fn range(start: u64, end: u64) -> ByteRange {
    ByteRange { start, end }
}

fn assert_is_a_plan(data: &[u8], ranges: &[ByteRange], workers: usize) {
    assert_eq!(ranges.len(), workers);
    let mut at = 0u64;
    let mut joined = Vec::new();
    for r in ranges {
        assert_eq!(r.start, at);
        assert!(r.start <= r.end);
        assert!(r.end as usize <= data.len());
        let end = r.end as usize;
        assert!(end == 0 || end == data.len() || data[end - 1] == b'\n');
        joined.extend_from_slice(&data[r.start as usize..end]);
        at = r.end;
    }
    assert_eq!(at as usize, data.len());
    assert_eq!(joined, data.to_vec());
}

#[test]
fn one_worker_gets_the_whole_file() {
    assert_eq!(plan(SAMPLE, 1), Ok(vec![range(0, SAMPLE.len() as u64)]));
    assert_eq!(plan(b"", 1), Ok(vec![range(0, 0)]));
    assert_eq!(plan(b"no terminator at all", 1), Ok(vec![range(0, 20)]));
}

#[test]
fn two_workers_are_cut_after_a_terminator() {
    let data = b"A;1.0\nB;2.0\nC;3.0\nD;4.0\n";
    assert_eq!(plan(data, 2), Ok(vec![range(0, 18), range(18, 24)]));
}

#[test]
fn cut_on_a_terminator_goes_right_after_it() {
    let data = b"A;1.0\nB;2.0\n";
    assert_eq!(data[5], b'\n');
    let planner = ChunkPlanner::new(12, 2);
    assert_eq!(planner.next_step(), PlanStep::Probe { offset: 6, len: 6 });
    let planner = ChunkPlanner::new(10, 2);
    assert_eq!(planner.next_step(), PlanStep::Probe { offset: 5, len: 5 });
    let planner = planner.supply(b"\nB;2.").unwrap();
    assert_eq!(planner.next_step(), PlanStep::Done);
    assert_eq!(planner.into_ranges(), vec![range(0, 6), range(6, 10)]);
}

#[test]
fn every_plan_of_the_sample_is_contiguous_and_line_aligned() {
    for workers in 1..=20 {
        let ranges = plan(SAMPLE, workers).unwrap();
        assert_is_a_plan(SAMPLE, &ranges, workers);
    }
}

#[test]
fn workers_beyond_the_end_get_empty_ranges() {
    let data = b"A;1.0\nB;2.0\n";
    let ranges = plan(data, 5).unwrap();
    assert_eq!(
        ranges,
        vec![range(0, 6), range(6, 12), range(12, 12), range(12, 12), range(12, 12)]
    );
}

#[test]
fn planner_asks_for_the_lookahead_and_no_more() {
    assert_eq!(LOOKAHEAD, 30);
    let planner = ChunkPlanner::new(1000, 4);
    assert_eq!(planner.next_step(), PlanStep::Probe { offset: 250, len: 30 });
    let near_the_end = ChunkPlanner::new(40, 2);
    assert_eq!(near_the_end.next_step(), PlanStep::Probe { offset: 20, len: 20 });
}

#[test]
fn planner_walks_from_probe_to_probe() {
    let planner = ChunkPlanner::new(1000, 4);
    let planner = planner.supply(b"abc\ndef\n").unwrap();
    assert_eq!(planner.next_step(), PlanStep::Probe { offset: 504, len: 30 });
    let planner = planner.supply(b"\n").unwrap();
    assert_eq!(planner.next_step(), PlanStep::Probe { offset: 755, len: 30 });
    let planner = planner.supply(b"0123456789012345678901234567\n\n").unwrap();
    assert_eq!(planner.next_step(), PlanStep::Done);
    assert_eq!(
        planner.into_ranges(),
        vec![range(0, 254), range(254, 505), range(505, 784), range(784, 1000)]
    );
}

#[test]
fn planner_looks_at_no_more_than_it_asked_for() {
    let mut window = vec![b'x'; 30];
    window.push(b'\n');
    let planner = ChunkPlanner::new(1000, 2);
    assert!(matches!(planner.supply(&window), Err(PlanError::NoTerminatorFound)));
    let near_the_end = ChunkPlanner::new(12, 2);
    assert_eq!(near_the_end.next_step(), PlanStep::Probe { offset: 6, len: 6 });
    assert!(matches!(near_the_end.supply(b"xxxxxx\n"), Err(PlanError::NoTerminatorFound)));
}

#[test]
fn no_terminator_in_the_window_is_an_error() {
    let planner = ChunkPlanner::new(1000, 2);
    assert!(matches!(planner.supply(b"no terminator here"), Err(PlanError::NoTerminatorFound)));
    let planner = ChunkPlanner::new(1000, 2);
    assert!(matches!(planner.supply(b""), Err(PlanError::NoTerminatorFound)));
    let long_line = vec![b'x'; 100];
    assert_eq!(plan(&long_line, 2), Err(PlanError::NoTerminatorFound));
}

#[test]
fn a_finished_planner_stays_as_it_is() {
    let planner = ChunkPlanner::new(10, 1);
    assert_eq!(planner.next_step(), PlanStep::Done);
    let planner = planner.supply(b"\n").unwrap();
    assert_eq!(planner.next_step(), PlanStep::Done);
    assert_eq!(planner.into_ranges(), vec![range(0, 10)]);
}

#[test]
fn empty_file_gives_every_worker_an_empty_range() {
    assert_eq!(plan(b"", 3), Ok(vec![range(0, 0), range(0, 0), range(0, 0)]));
}

#[test]
fn one_worker_and_many_give_the_same_table() {
    let whole = report(&process_chunk(SAMPLE));
    assert_eq!(
        whole,
        b"{Accra=31.2/31.2/31.2, Bern=9.9/10.0/10.0, Lima=-0.1/11.1/22.3, Oslo=-1.5/0.8/3.0}"
            .to_vec()
    );
    for workers in 1..=12 {
        let ranges = plan(SAMPLE, workers).unwrap();
        let table = aggregate(SAMPLE, &ranges);
        assert_eq!(report(&table), whole);
    }
}

#[test]
fn aggregate_merges_the_chunks_it_is_given() {
    let data = b"A;1.0\nB;2.0\nA;3.0\n";
    let all = aggregate(data, &[range(0, 6), range(6, 12), range(12, 18)]);
    assert_eq!(report(&all), b"{A=1.0/2.0/3.0, B=2.0/2.0/2.0}".to_vec());
    let some = aggregate(data, &[range(0, 6), range(12, 18)]);
    assert_eq!(report(&some), b"{A=1.0/2.0/3.0}".to_vec());
    let none = aggregate(data, &[]);
    assert_eq!(report(&none), b"{}".to_vec());
}

#[test]
fn a_plan_that_cuts_a_line_loses_it() {
    let data = b"A;1.0\nB;2.0\n";
    let cut = aggregate(data, &[range(0, 8), range(8, 12)]);
    assert_eq!(report(&cut), b"{A=1.0/1.0/1.0}".to_vec());
}

#[test]
fn file_without_final_terminator_is_planned_and_gathered() {
    let data = b"A;1.0\nB;2.0\nA;3.0";
    let ranges = plan(data, 2).unwrap();
    assert_is_a_plan(data, &ranges, 2);
    assert_eq!(report(&aggregate(data, &ranges)), b"{A=1.0/2.0/3.0, B=2.0/2.0/2.0}".to_vec());
}
