use std::sync::atomic::{AtomicBool, Ordering};

use monument::bell::Stage;
use monument::composition::Composition;
use monument::music::Stroke;
use monument::params::{Call, CallDisplayStyle, IntRange, Method, Parameters};
use monument::row::RowBuf;
use monument::search::{
    finalise_composition, truncate_queue, CompPrefix, Config, Search, SearchError, Update,
    UpdateConsumer,
};

/// Applies one change (places that make places, 1-based) to a row.
fn apply_change(row: &mut Vec<u8>, places: &[usize]) {
    let n = row.len();
    let mut i = 0;
    while i < n {
        if places.contains(&(i + 1)) {
            i += 1;
        } else if i + 1 < n && !places.contains(&(i + 2)) {
            row.swap(i, i + 1);
            i += 2;
        } else {
            i += 1;
        }
    }
}

/// The rows of one lead from a list of changes, plus the lead-head
/// transposition (the row after the whole lead).
fn lead_from_changes(stage: u8, changes: &[&[usize]]) -> (Vec<RowBuf>, RowBuf) {
    let n = stage as usize;
    let mut cur: Vec<u8> = (0..n as u8).collect();
    let mut rows = Vec::new();
    for ch in changes {
        rows.push(RowBuf { bells: cur.clone() });
        apply_change(&mut cur, ch);
    }
    (rows, RowBuf { bells: cur })
}

/// The permutation of a single change: what it does to rounds.
fn change_perm(stage: u8, change: &[usize]) -> RowBuf {
    let n = stage as usize;
    let mut cur: Vec<u8> = (0..n as u8).collect();
    apply_change(&mut cur, change);
    RowBuf { bells: cur }
}

fn make_method(name: &str, shorthand: &str, stage: u8, changes: &[&[usize]]) -> Method {
    let (lead, lead_head_transposition) = lead_from_changes(stage, changes);
    let mut labels: Vec<Option<u32>> = vec![None; lead.len()];
    labels[0] = Some(0);
    Method {
        name: name.to_owned(),
        shorthand: shorthand.to_owned(),
        stage: Stage::new(stage),
        lead,
        lead_head_transposition,
        labels,
    }
}

fn make_call(symbol: &str, stage: u8, call_change: &[usize], weight: i64) -> Call {
    Call {
        symbol: symbol.to_owned(),
        calling_positions: Vec::new(),
        label_from: 0,
        label_to: 0,
        place_notation: change_perm(stage, call_change),
        weight,
    }
}

fn base_params(stage: u8, methods: Vec<Method>, calls: Vec<Call>, min_len: usize, max_len: usize, num_comps: usize) -> Parameters {
    let num_methods = methods.len();
    Parameters {
        length: IntRange { min: min_len, max: max_len },
        num_comps,
        methods,
        calls,
        start_row: RowBuf::rounds(Stage::new(stage)),
        end_row: RowBuf::rounds(Stage::new(stage)),
        part_head: RowBuf::rounds(Stage::new(stage)),
        music_types: Vec::new(),
        start_stroke: Stroke::Hand,
        method_count_ranges: vec![IntRange { min: 0, max: max_len }; num_methods],
        max_contiguous_duffer: None,
        max_total_duffer: None,
        non_duffer_courses: None,
        call_display_style: CallDisplayStyle::Positional,
        start_indices: Vec::new(),
        end_indices: Vec::new(),
    }
}

fn test_config() -> Config {
    Config {
        thread_limit: None,
        graph_size_limit: 100_000,
        mem_limit: usize::MAX,
        leak_search_memory: false,
    }
}

struct Collector<'a> {
    comps: Vec<Composition>,
    saw_truncating: bool,
    tags: Vec<&'static str>,
    abort_flag: Option<&'a AtomicBool>,
    abort_after_comps: usize,
}

impl<'a> UpdateConsumer for Collector<'a> {
    fn on_update(&mut self, update: Update) {
        match update {
            Update::Comp(c) => {
                self.comps.push(c);
                self.tags.push("comp");
                if let Some(flag) = self.abort_flag {
                    if self.comps.len() >= self.abort_after_comps {
                        flag.store(true, Ordering::SeqCst);
                    }
                }
            }
            Update::Progress(p) => {
                if p.truncating_queue {
                    self.saw_truncating = true;
                }
                self.tags.push("progress");
            }
            Update::Aborting => self.tags.push("aborting"),
            Update::Complete => self.tags.push("complete"),
        }
    }
}

fn collector() -> Collector<'static> {
    Collector {
        comps: Vec::new(),
        saw_truncating: false,
        tags: Vec::new(),
        abort_flag: None,
        abort_after_comps: usize::MAX,
    }
}

const PB_MINOR: &[&[usize]] = &[
    &[],
    &[1, 6],
    &[],
    &[1, 6],
    &[],
    &[1, 6],
    &[],
    &[1, 6],
    &[],
    &[1, 6],
    &[],
    &[1, 2],
];

const PB_DOUBLES: &[&[usize]] = &[
    &[5],
    &[1],
    &[5],
    &[1],
    &[5],
    &[1],
    &[5],
    &[1],
    &[5],
    &[1, 2, 5],
];

/// Every emitted composition must rebuild to exactly its length of rows,
/// start at the start row, come round at the end row, and repeat no row
/// within a part.
fn check_comp_rows(comp: &Composition, params: &Parameters, num_parts: usize) {
    let (rows, leftover) = comp.rows(params);
    assert_eq!(rows.len(), comp.length);
    assert_eq!(rows[0].bells, params.start_row.bells);
    assert_eq!(leftover.bells, params.end_row.bells);
    // Truth within one part.
    let per_part = comp.length / num_parts;
    for i in 0..per_part {
        for j in (i + 1)..per_part {
            assert_ne!(rows[i].bells, rows[j].bells, "rows {} and {} repeat", i, j);
        }
    }
}

#[test]
fn plain_bob_minor_720() {
    let method = make_method("Plain Bob", "P", 6, PB_MINOR);
    let bob = make_call("-", 6, &[1, 4], -3);
    let single = make_call("s", 6, &[1, 2, 3, 4], -10);
    let params = base_params(6, vec![method], vec![bob, single], 720, 720, 1);
    let search = Search::new(params, test_config()).unwrap();
    let mut consumer = collector();
    let flag = AtomicBool::new(false);
    search.run(&mut consumer, &flag);
    assert_eq!(consumer.comps.len(), 1, "expected one 720 of Plain Bob Minor");
    let comp = &consumer.comps[0];
    assert_eq!(comp.length, 720);
    check_comp_rows(comp, search.parameters(), 1);
    let call_string = comp.call_string(search.parameters());
    assert!(call_string.starts_with('#'));
    // Sixty leads of Plain Bob make up a 720.
    assert_eq!(call_string.chars().filter(|c| *c == 'P').count(), 60);
    assert_eq!(consumer.tags.last(), Some(&"complete"));
}

#[test]
fn optimiser_idempotent() {
    let method = make_method("Plain Bob", "P", 6, PB_MINOR);
    let bob = make_call("-", 6, &[1, 4], -3);
    let params = base_params(6, vec![method], vec![bob], 720, 720, 1);
    let search = Search::new(params, test_config()).unwrap();
    // `Search::new` has already optimised the graph to a fixed point:
    // running the optimiser again must leave its size unchanged.
    let Search { params, config: _, graph: mut g } = search;
    let before = monument::optimise::Size::of(&g);
    let passes = monument::optimise::standard_passes();
    g.optimise(&passes, &params);
    assert_eq!(monument::optimise::Size::of(&g), before);
}

#[test]
fn spliced_little_bob_cambridge_320() {
    // Little Bob Minor and Cambridge Surprise Minor spliced at lead ends,
    // with near bobs.
    let little_bob: &[&[usize]] = &[
        &[],
        &[1, 6],
        &[],
        &[1, 4],
        &[],
        &[1, 6],
        &[],
        &[1, 2],
    ];
    let cambridge: &[&[usize]] = &[
        &[],
        &[3, 6],
        &[],
        &[1, 4],
        &[],
        &[1, 2],
        &[],
        &[3, 6],
        &[],
        &[1, 4],
        &[],
        &[5, 6],
        &[],
        &[1, 4],
        &[],
        &[3, 6],
        &[],
        &[1, 2],
        &[],
        &[1, 4],
        &[],
        &[3, 6],
        &[],
        &[1, 2],
    ];
    let m_lb = make_method("Little Bob", "L", 6, little_bob);
    let m_cambridge = make_method("Cambridge Surprise", "C", 6, cambridge);
    // One shared bob works from either method's lead end.
    let bob_lb = make_call("-", 6, &[1, 4], -3);
    let mut params = base_params(
        6,
        vec![m_lb, m_cambridge],
        vec![bob_lb],
        320,
        320,
        1,
    );
    // Each method must actually appear.
    params.method_count_ranges = vec![
        IntRange { min: 8, max: 312 },
        IntRange { min: 24, max: 312 },
    ];
    let search = Search::new(params, test_config()).unwrap();
    let mut consumer = collector();
    let flag = AtomicBool::new(false);
    search.run(&mut consumer, &flag);
    assert!(
        !consumer.comps.is_empty(),
        "expected spliced compositions of length 320"
    );
    for comp in &consumer.comps {
        assert_eq!(comp.length, 320);
        let total: usize = comp.method_counts.iter().sum();
        assert_eq!(total, 320);
        assert!(comp.method_counts[0] >= 8, "no lead of Little Bob rung");
        assert!(comp.method_counts[1] >= 24, "no lead of Cambridge rung");
        check_comp_rows(comp, search.parameters(), 1);
    }
}

#[test]
fn multipart_plain_bob_doubles() {
    let method = make_method("Plain Bob", "P", 5, PB_DOUBLES);
    let bob = make_call("-", 5, &[1, 4, 5], -3);
    // Strict truth caps Doubles at one extent of distinct rows, so the
    // multi-part lengths asked for stay within 240 rows.
    let mut params = base_params(5, vec![method], vec![bob], 40, 240, 3);
    params.part_head = RowBuf::parse("13524").unwrap();
    let search = Search::new(params, test_config()).unwrap();
    assert!(search.is_multipart());
    let num_parts = search.num_parts();
    assert!(num_parts > 1);
    let mut consumer = collector();
    let flag = AtomicBool::new(false);
    search.run(&mut consumer, &flag);
    assert!(!consumer.comps.is_empty(), "expected multi-part compositions");
    for comp in &consumer.comps {
        assert!(comp.length >= 40 && comp.length <= 240);
        assert_eq!(comp.length % num_parts, 0);
        check_comp_rows(comp, search.parameters(), num_parts);
    }
}

#[test]
fn memory_limit_truncates_and_completes() {
    let method = make_method("Plain Bob", "P", 6, PB_MINOR);
    let bob = make_call("-", 6, &[1, 4], -3);
    let single = make_call("s", 6, &[1, 2, 3, 4], -10);
    let params = base_params(6, vec![method], vec![bob, single], 720, 720, 2);
    let mut config = test_config();
    config.mem_limit = 20_000;
    let search = Search::new(params, config).unwrap();
    let mut consumer = collector();
    let flag = AtomicBool::new(false);
    search.run(&mut consumer, &flag);
    assert!(consumer.saw_truncating, "expected a truncation progress update");
    assert_eq!(consumer.tags.last(), Some(&"complete"));
}

#[test]
fn abort_mid_search() {
    let method = make_method("Plain Bob", "P", 6, PB_MINOR);
    let bob = make_call("-", 6, &[1, 4], -3);
    let single = make_call("s", 6, &[1, 2, 3, 4], -10);
    let params = base_params(6, vec![method], vec![bob, single], 720, 720, 1_000_000);
    let search = Search::new(params, test_config()).unwrap();
    let flag = AtomicBool::new(false);
    let mut consumer = Collector {
        comps: Vec::new(),
        saw_truncating: false,
        tags: Vec::new(),
        abort_flag: Some(&flag),
        abort_after_comps: 2,
    };
    search.run(&mut consumer, &flag);
    // The stream must end with Aborting followed directly by Complete.
    let n = consumer.tags.len();
    assert!(n >= 2);
    assert_eq!(consumer.tags[n - 2], "aborting");
    assert_eq!(consumer.tags[n - 1], "complete");
    // Every composition emitted before the abort stays valid.
    assert!(consumer.comps.len() >= 2);
    for comp in &consumer.comps {
        assert_eq!(comp.length, 720);
        check_comp_rows(comp, search.parameters(), 1);
    }
}

#[test]
fn graph_size_limit_is_enforced() {
    let method = make_method("Plain Bob", "P", 6, PB_MINOR);
    let bob = make_call("-", 6, &[1, 4], -3);
    let params = base_params(6, vec![method], vec![bob], 720, 720, 1);
    let mut config = test_config();
    config.graph_size_limit = 3;
    match Search::new(params, config) {
        Err(SearchError::GraphTooLarge) => {}
        other => panic!("expected a graph-size error, got ok={}", other.is_ok()),
    }
}

#[test]
fn incompatible_stages_are_refused() {
    let method = make_method("Plain Bob", "P", 6, PB_MINOR);
    let mut params = base_params(6, vec![method], Vec::new(), 60, 60, 1);
    params.start_row = RowBuf::parse("1234567").unwrap();
    match Search::new(params, test_config()) {
        Err(SearchError::IncompatibleStages) => {}
        other => panic!("expected a stage error, got ok={}", other.is_ok()),
    }
}

#[test]
fn unreachable_end_is_refused() {
    let method = make_method("Plain Bob", "P", 6, PB_MINOR);
    let mut params = base_params(6, vec![method], Vec::new(), 60, 60, 1);
    // The only labelled boundary is the lead head, so demanding an end
    // somewhere else leaves the graph without any end at all.
    params.end_indices = vec![3];
    match Search::new(params, test_config()) {
        Err(SearchError::StartOrEndUnreachable) => {}
        other => panic!("expected an unreachable-end error, got ok={}", other.is_ok()),
    }
}

#[test]
fn empty_methods_are_refused() {
    let params = base_params(6, Vec::new(), Vec::new(), 60, 60, 1);
    match Search::new(params, test_config()) {
        Err(SearchError::NoValidCompositionsPossible) => {}
        other => panic!("expected a no-compositions error, got ok={}", other.is_ok()),
    }
}

#[test]
fn default_config_shape() {
    let config = Config::default();
    assert_eq!(config.graph_size_limit, 100_000);
    assert!(config.thread_limit.is_none());
    assert!(!config.leak_search_memory);
}

#[test]
fn infeasible_parameters_are_refused() {
    let method = make_method("Plain Bob", "P", 6, PB_MINOR);
    let mut params = base_params(6, vec![method], Vec::new(), 720, 720, 1);
    params.method_count_ranges = vec![IntRange { min: 10_000, max: 20_000 }];
    match Search::new(params, test_config()) {
        Err(SearchError::MethodCountRangeExceedsLength) => {}
        other => panic!("expected a method-count error, got {:?}", other.is_ok()),
    }
}

#[test]
fn finalise_refuses_bad_chains() {
    let method = make_method("Plain Bob", "P", 6, PB_MINOR);
    let bob = make_call("-", 6, &[1, 4], -3);
    let params = base_params(6, vec![method], vec![bob], 720, 720, 1);
    let search = Search::new(params, test_config()).unwrap();
    // An empty chain is refused.
    let empty: Vec<(usize, Option<usize>, u16)> = Vec::new();
    assert!(finalise_composition(&search.graph, search.parameters(), &empty, 0).is_none());
    // A chain visiting one chunk twice is refused as untrue.
    if !search.graph.chunks.is_empty() {
        let twice = vec![(0usize, None, 0u16), (0usize, None, 0u16)];
        assert!(finalise_composition(&search.graph, search.parameters(), &twice, 0).is_none());
    }
    // A single chunk falls short of the length range and is refused.
    if !search.graph.chunks.is_empty() {
        let short = vec![(0usize, None, 0u16)];
        assert!(finalise_composition(&search.graph, search.parameters(), &short, 0).is_none());
    }
}

/// A prefix with the given score over ten rows; the other fields are inert.
fn prefix_scoring(score: i64) -> CompPrefix {
    CompPrefix {
        head: 0,
        chunk_idx: 0,
        per_part_len: 10,
        score,
        rot: 0,
        total_duffer: 0,
        run_duffer: 0,
    }
}

#[test]
fn truncate_queue_keeps_densest() {
    let mut queue = vec![
        prefix_scoring(10),
        prefix_scoring(50),
        prefix_scoring(30),
        prefix_scoring(40),
        prefix_scoring(20),
    ];
    truncate_queue(2, &mut queue);
    assert_eq!(queue.len(), 2);
    let mut scores: Vec<i64> = queue.iter().map(|p| p.score).collect();
    scores.sort();
    assert_eq!(scores, vec![40, 50]);

    // Truncating to more than the queue holds keeps everything.
    let mut short = vec![prefix_scoring(1), prefix_scoring(2)];
    truncate_queue(5, &mut short);
    assert_eq!(short.len(), 2);
}
