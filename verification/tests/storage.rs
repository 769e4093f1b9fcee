use evolution_simulator::evolution::Rng;
use evolution_simulator::storage::{
    archive_upgrade, checkpoint_format, elite_refresh_interval, island_count, meteor_stream,
    refresh_cycle, refresh_window, resume_progress_ok, sort_ids, strike_survivors,
    validate_history, validate_progress, weakest_island, ArchiveUpgrade, CheckpointFormat,
    HistoryCheck, HistoryError, ProgressError, ProgressState, Stage,
};

#[test]
fn stage_labels() {
    assert_eq!(Stage::Ready.label(), "Ready");
    assert_eq!(Stage::Evaluating.label(), "Evaluating");
    assert_eq!(Stage::Evaluated.label(), "Evaluation complete");
    assert_eq!(Stage::Ranked.label(), "Sorted by fitness");
    assert_eq!(Stage::Selected.label(), "Survivors selected");
    assert_eq!(Stage::Archived.label(), "Archive updated");
}

#[test]
fn island_count_defaults_to_four_and_accepts_one_to_sixty_four() {
    assert_eq!(island_count(None), 4);
    assert_eq!(island_count(Some("1")), 1);
    assert_eq!(island_count(Some("64")), 64);
    assert_eq!(island_count(Some("0")), 4);
    assert_eq!(island_count(Some("65")), 4);
    assert_eq!(island_count(Some("many")), 4);
}

#[test]
fn elite_refresh_is_off_unless_set() {
    assert_eq!(elite_refresh_interval(None), 0);
    assert_eq!(elite_refresh_interval(Some("nope")), 0);
    assert_eq!(elite_refresh_interval(Some("25")), 25);
    assert_eq!(elite_refresh_interval(Some("18446744073709551615")), u64::MAX);
}

#[test]
fn refresh_cycles_end_every_interval_generations() {
    assert_eq!(refresh_cycle(4, 0), None);
    assert_eq!(refresh_cycle(3, 5), None);
    assert_eq!(refresh_cycle(4, 5), Some(1));
    assert_eq!(refresh_cycle(9, 5), Some(2));
    assert_eq!(refresh_cycle(0, 1), Some(1));
}

#[test]
fn ids_sort_ascending() {
    assert_eq!(sort_ids(&vec![5, 1, 9, 1, 3]), vec![1, 1, 3, 5, 9]);
    assert_eq!(sort_ids(&vec![]), Vec::<u64>::new());
}

#[test]
fn refresh_window_rotates_through_sorted_ids() {
    let ids = vec![50, 10, 40, 20, 30, 60];
    assert_eq!(refresh_window(&ids, 1), vec![10, 20, 30, 40]);
    assert_eq!(refresh_window(&ids, 2), vec![50, 60, 10, 20]);
    assert_eq!(refresh_window(&ids, 3), vec![30, 40, 50, 60]);
    assert_eq!(refresh_window(&vec![7, 3], 5), vec![3, 7]);
    assert_eq!(refresh_window(&vec![], 1), Vec::<u64>::new());
}

fn sound() -> ProgressState {
    ProgressState {
        population: 4,
        scores_len: 4,
        evaluated: 4,
        trial_metrics_len: 4,
        candidate_emitters_len: 4,
        candidate_cma_len: 4,
        protected_until_len: 4,
        completed_scores_finite: true,
        pending_scores_unset: true,
        stage: Stage::Selected,
        ranks: vec![2, 0, 3, 1],
        parents: vec![2, 0],
        pending_ok: true,
        evaluation_time_ok: true,
        history_len: 3,
        generation: 2,
        qd_version: 19,
        archive_entries: 10,
        archive_behaviors: 8,
        archive_morphologies: 2,
        cma_emitters: 3,
        elites_ok: true,
    }
}

#[test]
fn consistent_progress_passes() {
    assert_eq!(validate_progress(&sound()), Ok(()));
}

#[test]
fn each_inconsistency_is_reported() {
    let mut s = sound();
    s.evaluated = 5;
    assert_eq!(validate_progress(&s), Err(ProgressError::InvalidEvaluationProgress));
    let mut s = sound();
    s.candidate_cma_len = 3;
    assert_eq!(validate_progress(&s), Err(ProgressError::InvalidCandidateState));
    let mut s = sound();
    s.completed_scores_finite = false;
    assert_eq!(validate_progress(&s), Err(ProgressError::InvalidCompletedFitness));
    let mut s = sound();
    s.pending_scores_unset = false;
    assert_eq!(validate_progress(&s), Err(ProgressError::InvalidPendingFitness));
    let mut s = sound();
    s.evaluated = 3;
    assert_eq!(validate_progress(&s), Err(ProgressError::IncompleteEvaluatedGeneration));
    let mut s = sound();
    s.ranks = vec![0, 1, 2];
    assert_eq!(validate_progress(&s), Err(ProgressError::InvalidRankingLength));
    let mut s = sound();
    s.ranks = vec![0, 1, 1, 3];
    assert_eq!(validate_progress(&s), Err(ProgressError::InvalidRankingIndex));
    let mut s = sound();
    s.ranks = vec![0, 1, 2, 4];
    assert_eq!(validate_progress(&s), Err(ProgressError::InvalidRankingIndex));
    let mut s = sound();
    s.parents = vec![2, 4];
    assert_eq!(validate_progress(&s), Err(ProgressError::InvalidParents));
    let mut s = sound();
    s.parents = vec![2];
    assert_eq!(validate_progress(&s), Err(ProgressError::InvalidParents));
    let mut s = sound();
    s.pending_ok = false;
    assert_eq!(validate_progress(&s), Err(ProgressError::InvalidPendingSettings));
    let mut s = sound();
    s.evaluation_time_ok = false;
    assert_eq!(validate_progress(&s), Err(ProgressError::InvalidEvaluationTime));
    let mut s = sound();
    s.history_len = 4;
    assert_eq!(validate_progress(&s), Err(ProgressError::InvalidHistoryLength));
    let mut s = sound();
    s.qd_version = 18;
    assert_eq!(validate_progress(&s), Err(ProgressError::InvalidArchiveState));
    let mut s = sound();
    s.cma_emitters = 97;
    assert_eq!(validate_progress(&s), Err(ProgressError::InvalidArchiveState));
}

#[test]
fn stages_before_ranking_skip_the_ranking_checks() {
    let mut s = sound();
    s.stage = Stage::Evaluating;
    s.evaluated = 2;
    s.ranks = vec![9];
    s.parents = vec![];
    assert_eq!(validate_progress(&s), Ok(()));
}

use evolution_simulator::qd::Emitter;
use evolution_simulator::storage::{describe_change, BodyChange};

#[test]
fn changes_are_described_in_words() {
    assert_eq!(describe_change(Emitter::Cma, false, None), "fine-tuned");
    assert_eq!(
        describe_change(
            Emitter::Morphology,
            true,
            Some(BodyChange { nodes: 1, muscles: -2, organs: 0, synced_rhythm: true })
        ),
        "reshaped, crossed with a relative, +1 node, -2 muscles, synced rhythm"
    );
    assert_eq!(
        describe_change(
            Emitter::Novelty,
            false,
            Some(BodyChange { nodes: 0, muscles: 0, organs: 3, synced_rhythm: false })
        ),
        "explored, +3 organs"
    );
    assert_eq!(
        describe_change(
            Emitter::Restart,
            false,
            Some(BodyChange { nodes: 0, muscles: 0, organs: 0, synced_rhythm: false })
        ),
        "new random body"
    );
    assert_eq!(
        describe_change(
            Emitter::Cma,
            false,
            Some(BodyChange { nodes: i64::MIN, muscles: -1, organs: 0, synced_rhythm: false })
        ),
        "fine-tuned, -9223372036854775808 nodes, -1 muscle"
    );
}

use evolution_simulator::storage::rotation_removals;

#[test]
fn rotation_keeps_the_newest_autosaves_and_other_files() {
    let names = [
        "seed-1-auto.evo",
        "seed-2-auto.evo",
        "my-run.evo",
        "seed-3-auto.evo",
        "seed-4.evo.tmp",
        "old.evo.tmp",
        "seed-5-auto.evo",
        "notes.txt",
    ];
    let modified = [10u128, 40, 1, 30, 5, 6, 30, 0];
    let ages = [Some(900u64), Some(10), Some(5000), Some(20), Some(601), Some(600), None, Some(9999)];
    // Autosaves newest first: 1 (40), 3 (30, listed first), 6 (30), 0 (10).
    assert_eq!(rotation_removals(&names, &modified, &ages, 2), vec![0, 4, 6]);
    assert_eq!(rotation_removals(&names, &modified, &ages, 3), vec![0, 4]);
    assert_eq!(rotation_removals(&names, &modified, &ages, 0), vec![0, 1, 3, 4, 6]);
    assert_eq!(rotation_removals(&names, &modified, &ages, 10), vec![4]);
}

#[test]
fn a_temporary_save_ahead_of_the_clock_stays() {
    assert!(rotation_removals(&["x.evo.tmp"], &[5], &[None], 0).is_empty());
    assert!(rotation_removals(&[], &[], &[], 0).is_empty());
}

use evolution_simulator::storage::{migration_moves, Migration};

#[test]
fn islands_pass_their_best_tenth_on_every_twenty_fifth_generation() {
    assert_eq!(migration_moves(24, 3, &[10, 11, 0]), None);
    assert_eq!(migration_moves(25, 4, &[10, 11, 0]), None);
    assert_eq!(
        migration_moves(50, 3, &[10, 11, 0]),
        Some(vec![
            Migration { from: 0, to: 1, count: 1 },
            Migration { from: 1, to: 2, count: 2 },
            Migration { from: 2, to: 0, count: 0 },
        ])
    );
    assert_eq!(migration_moves(0, 1, &[1440]), Some(vec![Migration { from: 0, to: 0, count: 144 }]));
    assert_eq!(migration_moves(0, 0, &[]), Some(vec![]));
}

#[test]
fn extinction_clears_the_island_with_the_slowest_best() {
    assert_eq!(weakest_island(&[Some(40), Some(-3), None, Some(12)]), Some(1));
    assert_eq!(weakest_island(&[None, Some(7), Some(7), Some(9)]), Some(1));
    assert_eq!(weakest_island(&[None, Some(7), Some(2), Some(2)]), Some(2));
}

#[test]
fn extinction_spares_islands_when_all_are_empty() {
    assert_eq!(weakest_island(&[]), None);
    assert_eq!(weakest_island(&[None, None]), None);
}

fn record(generation: u32) -> HistoryCheck {
    HistoryCheck {
        generation,
        population: 10,
        config_ok: true,
        config_population: 10,
        failed: 2,
        archive_cells: 0,
        scores_ok: true,
        percentiles_len: 29,
        statistics_ok: true,
        representatives_len: 3,
        histogram: vec![3, 5],
        species: vec![4, 6],
        representatives_ok: true,
    }
}

#[test]
fn a_consistent_history_passes() {
    assert_eq!(validate_history(&[]), Ok(()));
    assert_eq!(validate_history(&[record(0), record(1)]), Ok(()));
    let archived = HistoryCheck {
        archive_cells: 7,
        histogram: vec![7],
        species: vec![2, 5],
        ..record(0)
    };
    assert_eq!(validate_history(&[archived]), Ok(()));
}

#[test]
fn each_history_inconsistency_is_named() {
    let cases = [
        (HistoryCheck { config_ok: false, ..record(0) }, HistoryError::InvalidRecordedSettings),
        (record(1), HistoryError::InvalidHistoricalGeneration),
        (HistoryCheck { failed: 11, ..record(0) }, HistoryError::InvalidHistoricalGeneration),
        (
            HistoryCheck { archive_cells: 1_048_577, ..record(0) },
            HistoryError::InvalidHistoricalGeneration,
        ),
        (HistoryCheck { config_population: 12, ..record(0) }, HistoryError::InvalidHistoricalGeneration),
        (HistoryCheck { scores_ok: false, ..record(0) }, HistoryError::InvalidHistoricalGeneration),
        (HistoryCheck { percentiles_len: 28, ..record(0) }, HistoryError::InvalidHistoricalStatistics),
        (HistoryCheck { statistics_ok: false, ..record(0) }, HistoryError::InvalidHistoricalStatistics),
        (
            HistoryCheck { representatives_len: 2, ..record(0) },
            HistoryError::MissingHistoricalRepresentatives,
        ),
        (HistoryCheck { histogram: vec![3, 6], ..record(0) }, HistoryError::InvalidHistogramTotals),
        (HistoryCheck { species: vec![u32::MAX, 6], ..record(0) }, HistoryError::InvalidBodyTypeTotals),
        (
            HistoryCheck { archive_cells: 7, histogram: vec![7], ..record(0) },
            HistoryError::InvalidArchiveStatisticsTotals,
        ),
        (HistoryCheck { representatives_ok: false, ..record(0) }, HistoryError::InvalidRepresentatives),
    ];
    for (entry, error) in cases {
        assert_eq!(validate_history(&[entry]), Err(error));
    }
}

#[test]
fn the_earliest_inconsistent_generation_decides() {
    let second = HistoryCheck { representatives_ok: false, ..record(1) };
    let third = HistoryCheck { config_ok: false, ..record(2) };
    assert_eq!(
        validate_history(&[record(0), second, third]),
        Err(HistoryError::InvalidRepresentatives)
    );
}

#[test]
fn checkpoint_formats_are_told_by_their_first_bytes() {
    assert_eq!(checkpoint_format(b"EVORUST6"), Some(CheckpointFormat::Current));
    assert_eq!(checkpoint_format(b"EVORUST3"), Some(CheckpointFormat::V3));
    assert_eq!(checkpoint_format(b"EVORUST2"), Some(CheckpointFormat::V2));
    assert_eq!(checkpoint_format(b"EVORUST1"), Some(CheckpointFormat::Legacy));
}

#[test]
fn unknown_checkpoint_formats_are_refused() {
    assert_eq!(checkpoint_format(b"EVORUST4"), None);
    assert_eq!(checkpoint_format(b"EVORUST5"), None);
    assert_eq!(checkpoint_format(b"evorust6"), None);
    assert_eq!(checkpoint_format(b"EVORUST"), None);
    assert_eq!(checkpoint_format(b"EVORUST66"), None);
    assert_eq!(checkpoint_format(b""), None);
}

#[test]
fn optimizer_progress_must_fit_the_experiment() {
    assert!(resume_progress_ok(4, 10, &[], &[]));
    assert!(resume_progress_ok(2, 10, &[3, 10], &[true, true]));
    assert!(!resume_progress_ok(3, 10, &[3, 10], &[true, true]));
    assert!(!resume_progress_ok(2, 10, &[3, 11], &[true, true]));
    assert!(!resume_progress_ok(2, 10, &[3, 4], &[true, false]));
    let many = vec![0; 65];
    assert!(!resume_progress_ok(65, 10, &many, &vec![true; 65]));
}

#[test]
fn older_archives_are_cleared_and_the_population_kept() {
    assert_eq!(
        archive_upgrade(16, Some(40), 40),
        ArchiveUpgrade { clear_archives: true, drop_last_record: true }
    );
    assert_eq!(
        archive_upgrade(16, Some(39), 40),
        ArchiveUpgrade { clear_archives: true, drop_last_record: false }
    );
    assert_eq!(
        archive_upgrade(16, None, 0),
        ArchiveUpgrade { clear_archives: true, drop_last_record: false }
    );
    assert_eq!(
        archive_upgrade(19, Some(40), 40),
        ArchiveUpgrade { clear_archives: false, drop_last_record: false }
    );
}

#[test]
fn a_strike_draws_once_per_elite_from_the_meteor_stream() {
    let mut expected = Rng::new(7 ^ 0x6d65_7465_6f72, 12, 3);
    let mut rng = meteor_stream(7, 12, 3);
    let keep = strike_survivors(&mut rng, 6, 1 << 23);
    let want: Vec<bool> = (0..6).map(|_| (expected.next_u64() >> 40) >= 1 << 23).collect();
    assert_eq!(keep, want);
    // The next archive draws on where this one stopped.
    let next = strike_survivors(&mut rng, 2, 1 << 23);
    let want: Vec<bool> = (0..2).map(|_| (expected.next_u64() >> 40) >= 1 << 23).collect();
    assert_eq!(next, want);
}

#[test]
fn no_share_spares_everyone_and_a_whole_share_spares_no_one() {
    let mut rng = meteor_stream(1, 0, 0);
    assert_eq!(strike_survivors(&mut rng, 4, 0), vec![true; 4]);
    let mut rng = meteor_stream(1, 0, 0);
    assert_eq!(strike_survivors(&mut rng, 4, 1 << 24), vec![false; 4]);
    let mut rng = meteor_stream(1, 0, 0);
    assert!(strike_survivors(&mut rng, 0, 5).is_empty());
}

use evolution_simulator::storage::{config_update, ConfigUpdate, ConfigUpdateError, RunIdentity};

fn run() -> RunIdentity {
    RunIdentity { population: 100, seed: 7, random_seed: false }
}

#[test]
fn a_settings_update_applies_between_generations_and_waits_otherwise() {
    let bodies = [(5, 8), (12, 20)];
    let elites = [(6, 4)];
    assert_eq!(
        config_update(true, run(), run(), 12, 20, &bodies, &elites, Stage::Ready, false),
        Ok(ConfigUpdate::Apply { reset_search: false })
    );
    assert_eq!(
        config_update(true, run(), run(), 12, 20, &bodies, &elites, Stage::Ready, true),
        Ok(ConfigUpdate::Apply { reset_search: true })
    );
    assert_eq!(
        config_update(true, run(), run(), 12, 20, &bodies, &elites, Stage::Evaluating, true),
        Ok(ConfigUpdate::Pending)
    );
}

#[test]
fn each_refused_settings_update_is_named() {
    let bodies = [(5, 8), (12, 20)];
    let elites = [(6, 4), (9, 30)];
    assert_eq!(
        config_update(false, run(), run(), 64, 64, &bodies, &elites, Stage::Ready, false),
        Err(ConfigUpdateError::InvalidSettings)
    );
    for other in [
        RunIdentity { population: 102, ..run() },
        RunIdentity { seed: 8, ..run() },
        RunIdentity { random_seed: true, ..run() },
    ] {
        assert_eq!(
            config_update(true, run(), other, 64, 64, &bodies, &elites, Stage::Ready, false),
            Err(ConfigUpdateError::NewExperimentNeeded)
        );
    }
    assert_eq!(
        config_update(true, run(), run(), 11, 64, &bodies, &elites, Stage::Ready, false),
        Err(ConfigUpdateError::BodiesExceedLimits)
    );
    assert_eq!(
        config_update(true, run(), run(), 12, 20, &bodies, &elites, Stage::Ready, false),
        Err(ConfigUpdateError::ArchivedBodiesExceedLimits)
    );
}
