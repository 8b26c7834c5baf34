use servicecache::host::freeze::{
    fork_outcome, huge_page_size, is_zero, mapping_huge_pages, thread_count, Compaction,
    CompactionStep, Forked, FreezeStage, Freezing, LinearMemory, RebuildStage,
};

const PAGE: usize = 4096;
const HUGE: usize = 4 * PAGE;
const BASE: usize = 64 * PAGE;

/// Scans memories whose pages are resident and zero as given; which runs of
/// pages were released.
fn scan(compaction: &mut Compaction, resident: &[bool], zero: &[bool]) -> Vec<(usize, usize)> {
    let mut released = Vec::new();
    let base = BASE / PAGE;
    loop {
        let (release, block) = match compaction.step() {
            CompactionStep::Done => return released,
            CompactionStep::Finished { release, .. } => (release, None),
            CompactionStep::Look { release, block, .. } => (release, Some(block)),
        };
        if let Some(run) = release {
            compaction.released(run);
            released.push(run);
        }
        let Some(block) = block else { continue };
        let first = block.addr / PAGE - base;
        let seen: Vec<u8> =
            (first..first + block.count).map(|page| u8::from(resident[page])).collect();
        let runs = if block.is_judged_whole(&seen) {
            compaction.judge_whole((first..first + block.count).all(|page| zero[page]))
        } else {
            let zeroes: Vec<bool> =
                (first..first + block.count).map(|page| zero[page]).collect();
            compaction.judge_pages(&seen, &zeroes)
        };
        for run in runs {
            compaction.released(run);
            released.push(run);
        }
    }
}

fn memory(pages: usize, overlays: Vec<(usize, usize)>) -> LinearMemory {
    LinearMemory { base: BASE, len: pages * PAGE, private_anonymous: true, overlays }
}

fn covered(runs: &[(usize, usize)]) -> Vec<usize> {
    let mut pages: Vec<usize> = runs.iter().flat_map(|run| run.0..run.1).collect();
    pages.sort_unstable();
    pages
}

#[test]
fn every_resident_zero_page_is_released() {
    let mut compaction = Compaction::start(PAGE, HUGE, &Vec::new(), &vec![memory(8, Vec::new())]);
    let resident = [true, true, false, true, true, true, false, true];
    let zero = [true, false, true, true, true, false, false, true];
    let runs = scan(&mut compaction, &resident, &zero);
    assert_eq!(covered(&runs), [0, 3, 4, 7]);
    let totals = compaction.totals;
    assert_eq!(totals.memories, 1);
    assert_eq!(totals.scanned, 8);
    assert_eq!(totals.resident, 6);
    assert_eq!(totals.zero, 4);
    assert_eq!(totals.released, 4);
    assert_eq!(totals.runs, runs.len());
}

#[test]
fn overlays_are_left_alone() {
    let overlays = vec![(BASE + 2 * PAGE, 3 * PAGE)];
    let mut compaction = Compaction::start(PAGE, HUGE, &Vec::new(), &vec![memory(8, overlays)]);
    let runs = scan(&mut compaction, &[true; 8], &[true; 8]);
    assert_eq!(covered(&runs), [0, 1, 5, 6, 7]);
    assert_eq!(compaction.totals.overlay, 3);
    assert_eq!(compaction.totals.scanned, 5);
}

#[test]
fn a_huge_page_is_kept_or_released_whole() {
    let mappings = vec![(BASE, BASE + 8 * PAGE, true)];
    let mut compaction = Compaction::start(PAGE, HUGE, &mappings, &vec![memory(8, Vec::new())]);
    // The first huge page is zero throughout, the second is not.
    let mut zero = [true; 8];
    zero[6] = false;
    let runs = scan(&mut compaction, &[true; 8], &zero);
    assert_eq!(covered(&runs), [0, 1, 2, 3]);
    assert_eq!(compaction.totals.kept_blocks, 1);
}

#[test]
fn shared_memories_are_not_scanned() {
    let mut shared = memory(8, Vec::new());
    shared.private_anonymous = false;
    let mut compaction = Compaction::start(PAGE, HUGE, &Vec::new(), &vec![shared]);
    assert!(matches!(compaction.step(), CompactionStep::Done));
    assert_eq!(compaction.totals.memories, 0);
}

#[test]
fn a_slice_deals_with_a_block_and_a_scan_ends() {
    let mut compaction = Compaction::start(PAGE, HUGE, &Vec::new(), &vec![memory(8, Vec::new())]);
    assert!(!compaction.is_done());
    assert!(compaction.goes_on(false));
    assert!(!compaction.goes_on(true));
    match compaction.step() {
        CompactionStep::Look { block, .. } => assert_eq!((block.first, block.count), (0, 4)),
        other => panic!("{other:?}"),
    }
    assert!(compaction.judge_pages(&[1, 1, 0, 1], &[true, false, true, true]).contains(&(0, 1)));
    assert_eq!(compaction.owed, 1);
    assert_eq!(compaction.memories[0].next, 4);
    // Nothing was released: the page is kept.
    compaction.kept((0, 1));
    assert_eq!(compaction.owed, 0);
    assert!(matches!(compaction.step(), CompactionStep::Look { .. }));
    assert_eq!(compaction.abandon(), Some((3, 4)));
    compaction.released((3, 4));
    assert_eq!((compaction.totals.zero, compaction.totals.released), (2, 1));
    assert!(compaction.is_done());
    assert!(!compaction.goes_on(false));
    assert!(matches!(compaction.step(), CompactionStep::Done));
    assert!(matches!(compaction.step(), CompactionStep::Done));
}

#[test]
fn zero_means_every_word() {
    assert!(is_zero(&[0; 512]));
    let mut words = [0; 512];
    words[511] = 1;
    assert!(!is_zero(&words));
}

#[test]
fn the_kernel_files_are_read() {
    assert_eq!(huge_page_size(Some("1048576\n")), 1_048_576);
    assert_eq!(huge_page_size(Some("nonsense")), 2_097_152);
    assert_eq!(huge_page_size(None), 2_097_152);
    assert_eq!(thread_count("Name:\tx\nThreads:\t7\nSigQ:\t0\n"), 7);
    let smaps = "\
7f00-7f80 rw-p 00000000 00:00 0
Size:                  8 kB
AnonHugePages:      2048 kB
8000-9000 rw-p 00000000 00:00 0 /memfd
AnonHugePages:         0 kB
";
    assert_eq!(
        mapping_huge_pages(smaps),
        Some(vec![(0x7f00, 0x7f80, true), (0x8000, 0x9000, false)])
    );
}

#[test]
fn a_freeze_goes_through_its_stages() {
    assert_eq!(
        Freezing::begin(2).expect_err("tasks in flight"),
        "2 host-side task(s) in flight; a fork would lose them"
    );
    let mut freezing = Freezing::begin(0).expect("nothing in flight");
    freezing.drained(Ok(3)).expect("drained");
    assert_eq!(freezing.threads(2, false, &Vec::new()), Ok(false));
    assert_eq!(
        freezing.threads(2, true, &vec!["a".to_string(), "b".to_string()]),
        Err("2 threads remain after dismantling: a, b".to_string())
    );
    assert_eq!(freezing.threads(1, true, &Vec::new()), Ok(true));
    freezing.disconnected(Ok(())).expect("disconnected");
    assert_eq!(freezing.snapshotted(Ok(())), Ok(3));
    assert_eq!(freezing.stage, FreezeStage::Frozen);
}

#[test]
fn a_clone_is_rebuilt_in_order() {
    assert_eq!(fork_outcome(-1), Forked::Failed);
    assert_eq!(fork_outcome(0), Forked::Child);
    assert_eq!(fork_outcome(12), Forked::Parent(12));
    let mut stage = RebuildStage::ParentDeath;
    let mut stages = Vec::new();
    while stage != RebuildStage::Running {
        stages.push(stage);
        stage = stage.advance(Ok(())).expect("rebuilt");
    }
    assert_eq!(stages.len(), 7);
    let failed = |stage: RebuildStage| stage.advance(Err("why".to_string()));
    assert_eq!(
        failed(RebuildStage::Selector),
        Err("failed to rebuild the selector: why".to_string())
    );
    assert_eq!(
        failed(RebuildStage::SharedMemory),
        Err("resharing memory in the clone: why".to_string())
    );
    // That there is no snapshot says all.
    assert_eq!(failed(RebuildStage::Snapshot), Err("why".to_string()));
}
