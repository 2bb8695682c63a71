use esostats::model::{MasterTable, TableRow, Player, player_rows};
use esostats::rank::{top_n_players_by_average_rank, top_n_players_by_top_k_count};

fn row(partition_id: u8, ranking: u8, player_id: u32) -> TableRow {
    TableRow {
        boss_id: 1,
        partition_id,
        ranking,
        player_id,
        dps: 90_000,
        boss: false,
        skills: Vec::new(),
        armour: Vec::new(),
    }
}

fn player(id: u32, name: &str) -> Player {
    Player { id, name: name.to_string(), text: String::new() }
}

fn table(rows: Vec<TableRow>, players: Vec<Player>) -> MasterTable {
    MasterTable { rows, players, skills: Vec::new(), sets: Vec::new() }
}

#[test]
fn average_rank_threshold_excludes_small_samples() {
    // alice: 19 rows all rank 1 (average 1.0) - below the 20-row floor
    // bob: 25 rows averaging 3.2 - eligible
    let mut rows = Vec::new();
    for _ in 0..19 {
        rows.push(row(1, 1, 1));
    }
    for i in 0..25 {
        let rank = if i < 20 { 3 } else { 4 };
        rows.push(row(1, rank, 2));
    }
    let t = table(rows, vec![player(1, "alice"), player(2, "bob")]);
    let r = top_n_players_by_average_rank(&t, &[], 10);
    assert_eq!(r.len(), 1);
    assert_eq!(r[0].name, "bob");
    assert_eq!(r[0].row_count, 25);
    assert_eq!(r[0].rank_sum, 20 * 3 + 5 * 4);
}

#[test]
fn average_rank_orders_ascending_with_id_tie_break() {
    let mut rows = Vec::new();
    for _ in 0..20 {
        rows.push(row(1, 2, 1)); // alice: average 2.0
    }
    for _ in 0..20 {
        rows.push(row(1, 1, 2)); // bob: average 1.0
    }
    for _ in 0..20 {
        rows.push(row(1, 2, 3)); // carol: average 2.0, ties with alice
    }
    let t = table(rows, vec![player(1, "alice"), player(2, "bob"), player(3, "carol")]);
    let r = top_n_players_by_average_rank(&t, &[], 10);
    let names: Vec<&str> = r.iter().map(|e| e.name.as_str()).collect();
    assert_eq!(names, vec!["bob", "alice", "carol"]);
}

#[test]
fn average_rank_requires_resolvable_name() {
    let mut rows = Vec::new();
    for _ in 0..20 {
        rows.push(row(1, 1, 1));
    }
    let t = table(rows, vec![player(1, "")]);
    let r = top_n_players_by_average_rank(&t, &[], 10);
    assert!(r.is_empty());
}

#[test]
fn top_k_boundary_tie_break_falls_through_to_totals_then_id() {
    // three players tied at count_1 == 2; k == 1 leaves no stricter tier,
    // so the tie falls to total rows (desc), then player id (asc).
    let mut rows = Vec::new();
    // alice (pid 1): two rank-1 rows, 5 rows in total
    for i in 0..5 {
        let rank = if i < 2 { 1 } else { 9 };
        rows.push(row(1, rank, 1));
    }
    // bob (pid 2): two rank-1 rows, 7 rows in total
    for i in 0..7 {
        let rank = if i < 2 { 1 } else { 9 };
        rows.push(row(1, rank, 2));
    }
    // carol (pid 3): two rank-1 rows, 5 rows in total
    for i in 0..5 {
        let rank = if i < 2 { 1 } else { 9 };
        rows.push(row(1, rank, 3));
    }
    let t = table(rows, vec![player(1, "alice"), player(2, "bob"), player(3, "carol")]);
    let r = top_n_players_by_top_k_count(&t, &[], 3, 1);
    assert_eq!(r.len(), 3);
    let names: Vec<&str> = r.iter().map(|e| e.1.name.as_str()).collect();
    assert_eq!(names, vec!["bob", "alice", "carol"]);
    assert!(r.iter().all(|e| e.0 == 2));
}

#[test]
fn top_k_refines_boundary_with_stricter_tier() {
    // both players have count_2 == 2, but bob clusters closer to rank 1
    let mut rows = Vec::new();
    rows.push(row(1, 2, 1));
    rows.push(row(1, 2, 1));
    rows.push(row(1, 1, 2));
    rows.push(row(1, 2, 2));
    let t = table(rows, vec![player(1, "alice"), player(2, "bob")]);
    let r = top_n_players_by_top_k_count(&t, &[], 2, 2);
    assert_eq!(r.len(), 2);
    assert_eq!(r[0].1.name, "bob");
    assert_eq!(r[1].1.name, "alice");
}

#[test]
fn top_k_counts_are_monotone_in_k() {
    let mut rows = Vec::new();
    rows.push(row(1, 1, 1));
    rows.push(row(1, 2, 1));
    rows.push(row(1, 3, 1));
    rows.push(row(1, 9, 1));
    let t = table(rows, vec![player(1, "alice")]);
    let mut last: u64 = 0;
    for k in 1..6 {
        let r = top_n_players_by_top_k_count(&t, &[], 5, k);
        assert_eq!(r.len(), 1);
        assert!(r[0].0 >= last);
        last = r[0].0;
    }
    assert_eq!(last, 3);
}

#[test]
fn top_k_drops_players_without_display_name() {
    let mut rows = Vec::new();
    rows.push(row(1, 1, 1));
    rows.push(row(1, 1, 2));
    let t = table(rows, vec![player(1, ""), player(2, "bob")]);
    let r = top_n_players_by_top_k_count(&t, &[], 5, 1);
    assert_eq!(r.len(), 1);
    assert_eq!(r[0].1.name, "bob");
}

#[test]
fn top_k_candidates_need_a_top_k_row() {
    let mut rows = Vec::new();
    rows.push(row(1, 5, 1));
    rows.push(row(1, 1, 2));
    let t = table(rows, vec![player(1, "alice"), player(2, "bob")]);
    let r = top_n_players_by_top_k_count(&t, &[], 5, 2);
    assert_eq!(r.len(), 1);
    assert_eq!(r[0].1.name, "bob");
}

#[test]
fn player_rows_returns_that_players_rows_in_order() {
    let rows = vec![row(1, 1, 1), row(2, 3, 2), row(3, 2, 1)];
    let t = table(rows, vec![player(1, "alice"), player(2, "bob")]);
    let r = player_rows(&t, 1);
    assert_eq!(r.len(), 2);
    assert_eq!(r[0].partition_id, 1);
    assert_eq!(r[1].partition_id, 3);
    assert!(r.iter().all(|x| x.player_id == 1));
}

#[test]
fn average_rank_truncates_to_n() {
    let mut rows = Vec::new();
    for _ in 0..20 {
        rows.push(row(1, 1, 1));
        rows.push(row(1, 2, 2));
    }
    let t = table(rows, vec![player(1, "alice"), player(2, "bob")]);
    let r = top_n_players_by_average_rank(&t, &[], 1);
    assert_eq!(r.len(), 1);
    assert_eq!(r[0].name, "alice");
}

#[test]
fn top_k_honours_partition_filter() {
    let rows = vec![row(1, 1, 1), row(2, 1, 2)];
    let t = table(rows, vec![player(1, "alice"), player(2, "bob")]);
    let r = top_n_players_by_top_k_count(&t, &[2], 5, 1);
    assert_eq!(r.len(), 1);
    assert_eq!(r[0].1.name, "bob");
}
