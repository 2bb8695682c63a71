use esostats::model::{MasterTable, TableRow, Player, Skill, ItemSet};
use esostats::topn::{top_n_skills_for_partitions, top_n_sets_for_partitions};
use esostats::normal::{top_n_skills_for_partitions_normalised, top_n_sets_for_partitions_normalised};
use esostats::prevalence::{percent_players_with_skills, percent_players_with_sets};
use esostats::rounding::percent_of;
use esostats::label::unknown_name;

fn row(partition_id: u8, ranking: u8, player_id: u32, skills: Vec<u16>, armour: Vec<u16>) -> TableRow {
    TableRow {
        boss_id: 1,
        partition_id,
        ranking,
        player_id,
        dps: 100_000,
        boss: false,
        skills,
        armour,
    }
}

fn player(id: u32, name: &str) -> Player {
    Player { id, name: name.to_string(), text: String::new() }
}

fn skill(id: u16, name: &str) -> Skill {
    Skill { id, name: name.to_string(), class: None, tree: None, display_name: None }
}

fn item_set(id: u16, name: &str) -> ItemSet {
    ItemSet { id, name: name.to_string() }
}

fn table(rows: Vec<TableRow>, nskills: u16, nsets: u16) -> MasterTable {
    let mut skills = Vec::new();
    let mut i: u16 = 1;
    while i <= nskills {
        skills.push(skill(i, &format!("skill{}", i)));
        i += 1;
    }
    let mut sets = Vec::new();
    let mut j: u16 = 1;
    while j <= nsets {
        sets.push(item_set(j, &format!("set{}", j)));
        j += 1;
    }
    MasterTable { rows, players: vec![player(1, "alice"), player(2, "bob")], skills, sets }
}

#[test]
fn skill_multiplicity_vs_set_dedup() {
    // one row: skills [5, 5, 7], armour [10, 10, 12]
    let t = table(vec![row(1, 1, 1, vec![5, 5, 7], vec![10, 10, 12])], 8, 12);
    let skills = top_n_skills_for_partitions(&t, &[], 10);
    assert_eq!(skills.len(), 2);
    assert_eq!(skills[0].0.id, 5);
    assert_eq!(skills[0].1, 2); // counted with multiplicity
    assert_eq!(skills[1].0.id, 7);
    assert_eq!(skills[1].1, 1);
    let sets = top_n_sets_for_partitions(&t, &[], 10);
    assert_eq!(sets.len(), 2);
    assert_eq!(sets[0].0.id, 10);
    assert_eq!(sets[0].1, 1); // deduplicated per loadout
    assert_eq!(sets[1].0.id, 12);
    assert_eq!(sets[1].1, 1);
}

#[test]
fn conservation_with_other_bucket() {
    let t = table(
        vec![
            row(1, 1, 1, vec![1, 1, 1], vec![]),
            row(1, 2, 2, vec![2, 2], vec![]),
            row(2, 1, 1, vec![3], vec![]),
        ],
        4,
        0,
    );
    // total occurrences = 6; top 1 keeps skill 1 (count 3), Other sums 3
    let r = top_n_skills_for_partitions(&t, &[], 1);
    assert_eq!(r.len(), 2);
    assert_eq!(r[0].0.id, 1);
    assert_eq!(r[0].1, 3);
    assert_eq!(r[1].0.id, 999);
    assert_eq!(r[1].0.name, "Other");
    assert_eq!(r[1].1, 3);
    let total: u64 = r.iter().map(|e| e.1).sum();
    assert_eq!(total, 6);
}

#[test]
fn other_bucket_appears_iff_remainder_positive() {
    let t = table(vec![row(1, 1, 1, vec![1, 2, 3], vec![])], 4, 0);
    // n >= distinct id count: no Other entry
    let full = top_n_skills_for_partitions(&t, &[], 3);
    assert_eq!(full.len(), 3);
    assert!(full.iter().all(|e| e.0.id != 999));
    // n smaller: Other appears with the exact remainder
    let cut = top_n_skills_for_partitions(&t, &[], 2);
    assert_eq!(cut.len(), 3);
    assert_eq!(cut[2].0.id, 999);
    assert_eq!(cut[2].1, 1);
    // n == 0: everything lands in Other
    let none = top_n_skills_for_partitions(&t, &[], 0);
    assert_eq!(none.len(), 1);
    assert_eq!(none[0].0.id, 999);
    assert_eq!(none[0].1, 3);
}

#[test]
fn ties_rank_by_ascending_id() {
    let t = table(vec![row(1, 1, 1, vec![4, 2, 9], vec![])], 9, 0);
    let r = top_n_skills_for_partitions(&t, &[], 9);
    let ids: Vec<u16> = r.iter().map(|e| e.0.id).collect();
    assert_eq!(ids, vec![2, 4, 9]);
}

#[test]
fn partition_filter_restricts_rows() {
    let t = table(
        vec![row(1, 1, 1, vec![1], vec![]), row(2, 1, 1, vec![2], vec![])],
        2,
        0,
    );
    let r = top_n_skills_for_partitions(&t, &[2], 5);
    assert_eq!(r.len(), 1);
    assert_eq!(r[0].0.id, 2);
}

#[test]
fn zero_armour_id_is_dropped() {
    let t = table(vec![row(1, 1, 1, vec![], vec![0, 3, 0])], 0, 4);
    let r = top_n_sets_for_partitions(&t, &[], 5);
    assert_eq!(r.len(), 1);
    assert_eq!(r[0].0.id, 3);
}

#[test]
fn unknown_set_id_gets_placeholder_entity() {
    // armour references set 7, but the table lists no sets
    let t = table(vec![row(1, 1, 1, vec![], vec![7])], 0, 0);
    let r = top_n_sets_for_partitions(&t, &[], 5);
    assert_eq!(r.len(), 1);
    assert_eq!(r[0].0.id, 7);
    assert_eq!(r[0].0.name, "Unknown (#7)");
    assert_eq!(unknown_name(7), "Unknown (#7)");
    assert_eq!(unknown_name(12345), "Unknown (#12345)");
}

#[test]
fn normalised_weights_round_half_up() {
    // partition 1 has 2 rows, partition 2 has 4 rows: weights 1 and 1/2.
    // skill 1 occurs 3 times in partition 2: round(3 * 1/2) = round(1.5) = 2.
    // skill 2 occurs once in partition 1: round(1 * 1) = 1.
    let t = table(
        vec![
            row(1, 1, 1, vec![2], vec![]),
            row(1, 2, 1, vec![], vec![]),
            row(2, 1, 1, vec![1, 1], vec![]),
            row(2, 2, 1, vec![1], vec![]),
            row(2, 3, 1, vec![], vec![]),
            row(2, 4, 1, vec![], vec![]),
        ],
        2,
        0,
    );
    let r = top_n_skills_for_partitions_normalised(&t, &[], 10);
    assert_eq!(r.len(), 2);
    assert_eq!(r[0].0.id, 1);
    assert_eq!(r[0].1, 2);
    assert_eq!(r[1].0.id, 2);
    assert_eq!(r[1].1, 1);
}

#[test]
fn normalised_equals_raw_on_single_partition() {
    let t = table(
        vec![
            row(1, 1, 1, vec![1, 1, 2], vec![1, 2]),
            row(1, 2, 2, vec![2, 3], vec![2]),
            row(2, 1, 1, vec![3, 3, 3], vec![3]),
        ],
        3,
        3,
    );
    let raw_skills = top_n_skills_for_partitions(&t, &[1], 10);
    let norm_skills = top_n_skills_for_partitions_normalised(&t, &[1], 10);
    assert_eq!(raw_skills.len(), norm_skills.len());
    for (a, b) in raw_skills.iter().zip(norm_skills.iter()) {
        assert_eq!(a.0.id, b.0.id);
        assert_eq!(a.1, b.1);
    }
    let raw_sets = top_n_sets_for_partitions(&t, &[1], 10);
    let norm_sets = top_n_sets_for_partitions_normalised(&t, &[1], 10);
    assert_eq!(raw_sets.len(), norm_sets.len());
    for (a, b) in raw_sets.iter().zip(norm_sets.iter()) {
        assert_eq!(a.0.id, b.0.id);
        assert_eq!(a.1, b.1);
    }
}

#[test]
fn normalised_empty_when_no_rows_match() {
    let t = table(vec![row(1, 1, 1, vec![1], vec![])], 1, 0);
    let r = top_n_skills_for_partitions_normalised(&t, &[9], 10);
    assert!(r.is_empty());
    let s = top_n_sets_for_partitions_normalised(&t, &[9], 10);
    assert!(s.is_empty());
}

#[test]
fn prevalence_counts_and_denominator() {
    let t = table(
        vec![
            row(1, 1, 1, vec![1, 2, 1], vec![]),
            row(1, 2, 2, vec![1], vec![]),
            row(1, 3, 1, vec![], vec![]),
        ],
        2,
        0,
    );
    let (list, with_any) = percent_players_with_skills(&t, &[]);
    // two rows have skills; skill 1 in both, skill 2 in one
    assert_eq!(with_any, 2);
    assert_eq!(list.len(), 2);
    assert_eq!(list[0].0.id, 1);
    assert_eq!(list[0].1, 2);
    assert_eq!(list[1].0.id, 2);
    assert_eq!(list[1].1, 1);
    // percentages lie in [0, 100]
    for e in &list {
        let pct = percent_of(e.1, with_any);
        assert!(pct <= 100);
    }
    assert_eq!(percent_of(2, 2), 100);
    assert_eq!(percent_of(1, 2), 50);
    assert_eq!(percent_of(1, 3), 33);
    assert_eq!(percent_of(2, 3), 67);
}

#[test]
fn set_prevalence_ignores_empty_loadouts() {
    let t = table(
        vec![
            row(1, 1, 1, vec![], vec![1, 1, 2]),
            row(1, 2, 2, vec![], vec![0]),
        ],
        0,
        2,
    );
    let (list, with_any) = percent_players_with_sets(&t, &[]);
    // the all-sentinel loadout does not count
    assert_eq!(with_any, 1);
    assert_eq!(list.len(), 2);
    assert_eq!(list[0].0.id, 1);
    assert_eq!(list[0].1, 1);
    assert_eq!(list[1].0.id, 2);
    assert_eq!(list[1].1, 1);
}

#[test]
fn perfected_variants_count_as_their_base_set() {
    let mut sets = Vec::new();
    sets.push(item_set(1, "Aegis"));
    sets.push(item_set(2, "Perfected Aegis"));
    sets.push(item_set(3, "Bulwark"));
    let t = MasterTable {
        rows: vec![
            row(1, 1, 1, vec![], vec![2]),
            row(1, 2, 2, vec![], vec![1]),
            row(1, 3, 1, vec![], vec![3]),
        ],
        players: vec![player(1, "alice"), player(2, "bob")],
        skills: Vec::new(),
        sets,
    };
    let r = top_n_sets_for_partitions(&t, &[], 5);
    // both Aegis variants resolve to the base set (id 1)
    assert_eq!(r.len(), 2);
    assert_eq!(r[0].0.id, 1);
    assert_eq!(r[0].1, 2);
    assert_eq!(r[1].0.id, 3);
    assert_eq!(r[1].1, 1);
}

#[test]
fn empty_table_yields_empty_results() {
    let t = table(Vec::new(), 0, 0);
    assert!(top_n_skills_for_partitions(&t, &[], 5).is_empty());
    assert!(top_n_sets_for_partitions(&t, &[], 5).is_empty());
    assert!(top_n_skills_for_partitions_normalised(&t, &[], 5).is_empty());
    assert!(top_n_sets_for_partitions_normalised(&t, &[], 5).is_empty());
    let (list, with_any) = percent_players_with_skills(&t, &[]);
    assert!(list.is_empty());
    assert_eq!(with_any, 0);
}

#[test]
fn conservation_under_multi_partition_filter() {
    let t = table(
        vec![
            row(1, 1, 1, vec![1, 2], vec![]),
            row(2, 1, 1, vec![2, 2], vec![]),
            row(3, 1, 1, vec![3, 3, 3], vec![]),
        ],
        3,
        0,
    );
    // partitions 1 and 2 hold 4 occurrences in total
    let r = top_n_skills_for_partitions(&t, &[1, 2], 1);
    let total: u64 = r.iter().map(|e| e.1).sum();
    assert_eq!(total, 4);
    assert_eq!(r[0].0.id, 2);
    assert_eq!(r[0].1, 3);
}

#[test]
fn normalised_buckets_remainder_into_other() {
    // single partition, so normalised counts equal raw counts
    let t = table(vec![row(1, 1, 1, vec![1, 1, 2, 3], vec![])], 3, 0);
    let r = top_n_skills_for_partitions_normalised(&t, &[], 1);
    assert_eq!(r.len(), 2);
    assert_eq!(r[0].0.id, 1);
    assert_eq!(r[0].1, 2);
    assert_eq!(r[1].0.id, 999);
    assert_eq!(r[1].1, 2);
}

#[test]
fn prevalence_is_sorted_descending() {
    let t = table(
        vec![
            row(1, 1, 1, vec![1], vec![]),
            row(1, 2, 1, vec![1, 2], vec![]),
            row(1, 3, 1, vec![1, 2, 3], vec![]),
        ],
        3,
        0,
    );
    let (list, with_any) = percent_players_with_skills(&t, &[]);
    assert_eq!(with_any, 3);
    let hits: Vec<u64> = list.iter().map(|e| e.1).collect();
    assert_eq!(hits, vec![3, 2, 1]);
}
